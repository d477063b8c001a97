use stun_message::attribute::{Attribute, AttributeType, RawAttribute};
use stun_message::decoder::MessageDecoder;
use stun_message::encoder::MessageEncoder;
use stun_message::message::{Message, Method};
use stun_message::message_type::{MessageClass, Type};
use stun_message::types::{ByteCount, Eos, ErrorKind, TransactionId, U12};
use vstd::seq::Seq;

#[derive(Debug, Clone, Copy, PartialEq, Eq)]
struct Binding;

// The specification functions of the traits are read by Verus only; an
// implementation that is not verified never has them called.
impl Method for Binding {
    fn spec_code(&self) -> u16 {
        unreachable!()
    }

    fn spec_from_code(_code: u16) -> Option<Self> {
        unreachable!()
    }

    fn as_u12(&self) -> U12 {
        U12::from_u8(1)
    }

    fn from_u12(value: U12) -> Option<Self> {
        if value.as_u16() == 1 {
            Some(Binding)
        } else {
            None
        }
    }
}

#[derive(Debug, Clone, PartialEq, Eq)]
enum TestAttr {
    Software(Vec<u8>),
    Priority(u32),
    /// Records how many attributes precede it when the message is encoded.
    Position(u8),
}

impl Attribute for TestAttr {
    fn spec_type(&self) -> u16 {
        unreachable!()
    }

    fn spec_encode_value(&self) -> Result<Seq<u8>, ErrorKind> {
        unreachable!()
    }

    fn spec_decode_value(_attr_type: u16, _value: Seq<u8>) -> Option<Result<Self, ErrorKind>> {
        unreachable!()
    }

    fn get_type(&self) -> AttributeType {
        match self {
            TestAttr::Software(_) => AttributeType::new(0x8022),
            TestAttr::Priority(_) => AttributeType::new(0x0024),
            TestAttr::Position(_) => AttributeType::new(0x7000),
        }
    }

    fn encode_value(&self) -> Result<Vec<u8>, ErrorKind> {
        match self {
            TestAttr::Software(v) => Ok(v.clone()),
            TestAttr::Priority(p) => Ok(p.to_be_bytes().to_vec()),
            TestAttr::Position(n) => Ok(vec![*n]),
        }
    }

    fn decode_value(attr_type: AttributeType, value: &[u8]) -> Option<Result<Self, ErrorKind>> {
        match attr_type.as_u16() {
            0x8022 => Some(Ok(TestAttr::Software(value.to_vec()))),
            0x0024 => {
                if value.len() == 4 {
                    Some(Ok(TestAttr::Priority(u32::from_be_bytes([
                        value[0], value[1], value[2], value[3],
                    ]))))
                } else {
                    Some(Err(ErrorKind::InvalidInput))
                }
            }
            0x7000 => {
                if value.len() == 1 {
                    Some(Ok(TestAttr::Position(value[0])))
                } else {
                    Some(Err(ErrorKind::InvalidInput))
                }
            }
            _ => None,
        }
    }

    fn before_encode<M: Method>(&mut self, message: &Message<M, Self>) -> Result<(), ErrorKind> {
        if let TestAttr::Position(n) = self {
            *n = (message.attributes().len() + message.unknown_attributes().len()) as u8;
        }
        Ok(())
    }

    fn after_decode<M: Method>(&mut self, message: &Message<M, Self>) -> Result<(), ErrorKind> {
        if let TestAttr::Position(n) = self {
            let before = message.attributes().len() + message.unknown_attributes().len();
            if *n as usize != before {
                return Err(ErrorKind::InvalidInput);
            }
        }
        Ok(())
    }
}

fn tid() -> TransactionId {
    TransactionId::new([1, 2, 3, 4, 5, 6, 7, 8, 9, 10, 11, 12])
}

fn encode(message: Message<Binding, TestAttr>) -> Result<Vec<u8>, ErrorKind> {
    let mut encoder = MessageEncoder::<Binding, TestAttr>::new();
    encoder.start_encoding(message)?;
    let mut buf = vec![0u8; encoder.exact_requiring_bytes() as usize];
    let n = encoder.encode(&mut buf, Eos::new(true))?;
    assert_eq!(n, buf.len());
    assert!(encoder.is_idle());
    Ok(buf)
}

fn decode(bytes: &[u8]) -> Result<Message<Binding, TestAttr>, ErrorKind> {
    let mut decoder = MessageDecoder::<Binding, TestAttr>::new();
    let n = decoder.decode(bytes, Eos::new(true))?;
    assert_eq!(n, bytes.len());
    decoder.finish_decoding()
}

const HEADER: [u8; 20] = [
    0x00, 0x01, 0x00, 0x00, 0x21, 0x12, 0xA4, 0x42, 1, 2, 3, 4, 5, 6, 7, 8, 9, 10, 11, 12,
];

#[test]
fn message_class_from_u8_works() {
    assert_eq!(MessageClass::from_u8(0), Some(MessageClass::Request));
    assert_eq!(MessageClass::from_u8(9), None);
}

#[test]
fn message_class_codes() {
    assert_eq!(MessageClass::from_u8(1), Some(MessageClass::Indication));
    assert_eq!(MessageClass::from_u8(2), Some(MessageClass::SuccessResponse));
    assert_eq!(MessageClass::from_u8(3), Some(MessageClass::ErrorResponse));
    assert_eq!(MessageClass::from_u8(4), None);
}

#[test]
fn binding_request_type_is_0x0001() {
    let t = Type { class: MessageClass::Request, method: U12::from_u8(1) };
    assert_eq!(t.as_u16(), 0x0001);
}

#[test]
fn binding_success_response_type_is_0x0101() {
    let t = Type { class: MessageClass::SuccessResponse, method: U12::from_u8(1) };
    assert_eq!(t.as_u16(), 0x0101);
}

#[test]
fn indication_and_error_response_types() {
    let t = Type { class: MessageClass::Indication, method: U12::from_u8(1) };
    assert_eq!(t.as_u16(), 0x0011);
    let t = Type { class: MessageClass::ErrorResponse, method: U12::from_u8(1) };
    assert_eq!(t.as_u16(), 0x0111);
}

#[test]
fn type_interleaves_method_bits() {
    // M11..M7 go to bits 13..9, M6..M4 to bits 7..5, M3..M0 to bits 3..0.
    let t = Type { class: MessageClass::Request, method: U12::from_u16(0x0FFF).unwrap() };
    assert_eq!(t.as_u16(), 0x3EEF);
    let t = Type { class: MessageClass::ErrorResponse, method: U12::from_u16(0x0FFF).unwrap() };
    assert_eq!(t.as_u16(), 0x3FFF);
    let t = Type { class: MessageClass::Request, method: U12::from_u16(0x0010).unwrap() };
    assert_eq!(t.as_u16(), 0x0020);
    let t = Type { class: MessageClass::Request, method: U12::from_u16(0x0080).unwrap() };
    assert_eq!(t.as_u16(), 0x0200);
}

#[test]
fn type_from_u16_splits_class_and_method() {
    let t = Type::from_u16(0x0101).unwrap();
    assert_eq!(t.class, MessageClass::SuccessResponse);
    assert_eq!(t.method.as_u16(), 1);
    let t = Type::from_u16(0x3EEF).unwrap();
    assert_eq!(t.class, MessageClass::Request);
    assert_eq!(t.method.as_u16(), 0x0FFF);
}

#[test]
fn type_round_trips() {
    for class in [
        MessageClass::Request,
        MessageClass::Indication,
        MessageClass::SuccessResponse,
        MessageClass::ErrorResponse,
    ] {
        for m in [0u16, 1, 0x0F, 0x10, 0x7F, 0x80, 0x555, 0xAAA, 0xFFF] {
            let t = Type { class, method: U12::from_u16(m).unwrap() };
            assert_eq!(Type::from_u16(t.as_u16()), Ok(t));
        }
    }
}

#[test]
fn type_with_leading_bits_is_rejected() {
    assert_eq!(Type::from_u16(0x4001), Err(ErrorKind::InvalidInput));
    assert_eq!(Type::from_u16(0x8001), Err(ErrorKind::InvalidInput));
}

#[test]
fn u12_bounds() {
    assert!(U12::from_u16(4095).is_some());
    assert!(U12::from_u16(4096).is_none());
    assert_eq!(U12::from_u8(200).as_u16(), 200);
}

#[test]
fn transaction_id_keeps_bytes() {
    assert_eq!(tid().as_bytes(), &[1, 2, 3, 4, 5, 6, 7, 8, 9, 10, 11, 12]);
}

#[test]
fn attribute_type_comprehension() {
    assert!(AttributeType::new(0x0024).is_comprehension_required());
    assert!(!AttributeType::new(0x0024).is_comprehension_optional());
    assert!(AttributeType::new(0x8022).is_comprehension_optional());
}

#[test]
fn eos_reports_end() {
    assert!(Eos::new(true).is_reached());
    assert!(!Eos::new(false).is_reached());
    assert_eq!(Eos::new(false).remaining_bytes(), ByteCount::Unknown);
    assert!(!Eos::with_remaining_bytes(ByteCount::Finite(3)).is_reached());
}

#[test]
fn message_accessors() {
    let mut m = Message::<Binding, TestAttr>::new(MessageClass::Request, Binding, tid());
    assert_eq!(m.class(), MessageClass::Request);
    assert_eq!(m.method(), &Binding);
    assert_eq!(m.transaction_id(), &tid());
    assert!(m.attributes().is_empty());
    m.push_attribute(TestAttr::Priority(7));
    m.push_attribute(TestAttr::Software(b"ab".to_vec()));
    assert_eq!(
        m.attributes(),
        vec![&TestAttr::Priority(7), &TestAttr::Software(b"ab".to_vec())]
    );
    assert!(m.unknown_attributes().is_empty());
}

#[test]
fn empty_binding_request_encodes_to_header() {
    let m = Message::<Binding, TestAttr>::new(MessageClass::Request, Binding, tid());
    assert_eq!(encode(m).unwrap(), HEADER.to_vec());
}

#[test]
fn attributes_are_padded_to_four_bytes() {
    let mut m = Message::<Binding, TestAttr>::new(MessageClass::Request, Binding, tid());
    m.push_attribute(TestAttr::Software(b"abcde".to_vec()));
    let bytes = encode(m).unwrap();
    let mut expected = HEADER.to_vec();
    expected[3] = 12;
    expected.extend_from_slice(&[0x80, 0x22, 0x00, 0x05, b'a', b'b', b'c', b'd', b'e', 0, 0, 0]);
    assert_eq!(bytes, expected);
}

#[test]
fn message_round_trips() {
    let mut m = Message::<Binding, TestAttr>::new(MessageClass::SuccessResponse, Binding, tid());
    m.push_attribute(TestAttr::Priority(0x0102_0304));
    m.push_attribute(TestAttr::Software(b"xyz".to_vec()));
    let bytes = encode(m).unwrap();
    assert_eq!(bytes.len(), 20 + 8 + 8);
    assert_eq!((bytes.len() - 20) % 4, 0);
    let d = decode(&bytes).unwrap();
    assert_eq!(d.class(), MessageClass::SuccessResponse);
    assert_eq!(d.transaction_id(), &tid());
    assert_eq!(
        d.attributes(),
        vec![&TestAttr::Priority(0x0102_0304), &TestAttr::Software(b"xyz".to_vec())]
    );
    // Lossless: encoding the decoded message gives the same bytes.
    assert_eq!(encode(d).unwrap(), bytes);
}

#[test]
fn padding_bytes_are_kept() {
    let mut bytes = HEADER.to_vec();
    bytes[3] = 8;
    bytes.extend_from_slice(&[0x80, 0x22, 0x00, 0x01, b'a', 0xAA, 0xBB, 0xCC]);
    let d = decode(&bytes).unwrap();
    assert_eq!(d.attributes(), vec![&TestAttr::Software(b"a".to_vec())]);
    assert_eq!(encode(d).unwrap(), bytes);
}

#[test]
fn unknown_attributes_are_kept_raw() {
    let mut bytes = HEADER.to_vec();
    bytes[3] = 8;
    bytes.extend_from_slice(&[0x00, 0x99, 0x00, 0x02, 7, 8, 0, 0]);
    let d = decode(&bytes).unwrap();
    assert!(d.attributes().is_empty());
    let unknown = d.unknown_attributes();
    assert_eq!(unknown.len(), 1);
    assert_eq!(unknown[0].get_type().as_u16(), 0x0099);
    assert!(unknown[0].get_type().is_comprehension_required());
    assert_eq!(unknown[0].value(), &vec![7, 8]);
    assert_eq!(encode(d).unwrap(), bytes);
}

#[test]
fn raw_attribute_accessors() {
    let raw = RawAttribute::new(AttributeType::new(0x8001), vec![1, 2, 3]);
    assert_eq!(raw.get_type().as_u16(), 0x8001);
    assert_eq!(raw.value(), &vec![1, 2, 3]);
}

#[test]
fn wrong_magic_cookie_is_rejected() {
    let mut bytes = HEADER.to_vec();
    bytes[7] = 0x43;
    let mut decoder = MessageDecoder::<Binding, TestAttr>::new();
    assert_eq!(decoder.decode(&bytes, Eos::new(false)), Err(ErrorKind::InvalidInput));
}

#[test]
fn leading_bits_are_rejected() {
    let mut bytes = HEADER.to_vec();
    bytes[0] = 0x40;
    let mut decoder = MessageDecoder::<Binding, TestAttr>::new();
    assert_eq!(decoder.decode(&bytes, Eos::new(false)), Err(ErrorKind::InvalidInput));
}

#[test]
fn unknown_method_is_rejected() {
    let mut bytes = HEADER.to_vec();
    bytes[1] = 0x02;
    let mut decoder = MessageDecoder::<Binding, TestAttr>::new();
    assert_eq!(decoder.decode(&bytes, Eos::new(false)), Ok(20));
    assert!(decoder.is_idle());
    assert_eq!(decoder.finish_decoding().err(), Some(ErrorKind::InvalidInput));
}

#[test]
fn truncated_header_is_unexpected_eos() {
    let mut decoder = MessageDecoder::<Binding, TestAttr>::new();
    assert_eq!(decoder.decode(&HEADER[..10], Eos::new(true)), Err(ErrorKind::UnexpectedEos));
}

#[test]
fn truncated_attribute_is_unexpected_eos() {
    let mut bytes = HEADER.to_vec();
    bytes[3] = 4;
    bytes.extend_from_slice(&[0x80, 0x22, 0x00, 0x04]);
    assert_eq!(decode(&bytes).err(), Some(ErrorKind::UnexpectedEos));
}

#[test]
fn bad_known_value_is_reported() {
    let mut bytes = HEADER.to_vec();
    bytes[3] = 8;
    bytes.extend_from_slice(&[0x00, 0x24, 0x00, 0x02, 1, 2, 0, 0]);
    assert_eq!(decode(&bytes).err(), Some(ErrorKind::InvalidInput));
}

#[test]
fn finishing_early_is_incomplete() {
    let mut decoder = MessageDecoder::<Binding, TestAttr>::new();
    assert_eq!(decoder.finish_decoding().err(), Some(ErrorKind::IncompleteDecoding));
    assert_eq!(decoder.decode(&HEADER[..5], Eos::new(false)), Ok(5));
    assert!(!decoder.is_idle());
    assert_eq!(decoder.finish_decoding().err(), Some(ErrorKind::IncompleteDecoding));
}

#[test]
fn decoding_in_pieces() {
    let mut m = Message::<Binding, TestAttr>::new(MessageClass::Indication, Binding, tid());
    m.push_attribute(TestAttr::Priority(9));
    let bytes = encode(m).unwrap();
    let mut decoder = MessageDecoder::<Binding, TestAttr>::new();
    assert_eq!(decoder.requiring_bytes(), ByteCount::Finite(20));
    assert_eq!(decoder.decode(&bytes[..7], Eos::new(false)), Ok(7));
    assert_eq!(decoder.requiring_bytes(), ByteCount::Finite(13));
    assert_eq!(decoder.decode(&bytes[7..22], Eos::new(false)), Ok(15));
    assert_eq!(decoder.requiring_bytes(), ByteCount::Finite(6));
    assert!(!decoder.is_idle());
    // Bytes after the message are left alone.
    let mut rest = bytes[22..].to_vec();
    rest.extend_from_slice(&[0xFF, 0xFF]);
    assert_eq!(decoder.decode(&rest, Eos::new(false)), Ok(6));
    assert!(decoder.is_idle());
    assert_eq!(decoder.decode(&rest[6..], Eos::new(false)), Ok(0));
    let d = decoder.finish_decoding().unwrap();
    assert_eq!(d.class(), MessageClass::Indication);
    assert_eq!(d.attributes(), vec![&TestAttr::Priority(9)]);
    assert!(!decoder.is_idle());
}

#[test]
fn decoder_takes_two_messages() {
    let a = encode(Message::<Binding, TestAttr>::new(MessageClass::Request, Binding, tid())).unwrap();
    let mut m = Message::<Binding, TestAttr>::new(MessageClass::SuccessResponse, Binding, tid());
    m.push_attribute(TestAttr::Priority(1));
    let b = encode(m).unwrap();
    let mut stream = a.clone();
    stream.extend_from_slice(&b);
    let mut decoder = MessageDecoder::<Binding, TestAttr>::new();
    assert_eq!(decoder.decode(&stream, Eos::new(false)), Ok(20));
    assert_eq!(decoder.finish_decoding().unwrap().class(), MessageClass::Request);
    assert_eq!(decoder.decode(&stream[20..], Eos::new(true)), Ok(b.len()));
    let d = decoder.finish_decoding().unwrap();
    assert_eq!(d.class(), MessageClass::SuccessResponse);
    assert_eq!(d.attributes(), vec![&TestAttr::Priority(1)]);
}

#[test]
fn hooks_see_the_attributes_before() {
    let mut m = Message::<Binding, TestAttr>::new(MessageClass::Request, Binding, tid());
    m.push_attribute(TestAttr::Priority(1));
    m.push_attribute(TestAttr::Software(b"s".to_vec()));
    m.push_attribute(TestAttr::Position(0));
    let bytes = encode(m).unwrap();
    let d = decode(&bytes).unwrap();
    assert_eq!(d.attributes()[2], &TestAttr::Position(2));
    // A position that does not match fails the hook after decoding.
    let mut bad = bytes.clone();
    let last = bad.len() - 4;
    bad[last] = 5;
    assert_eq!(decode(&bad).err(), Some(ErrorKind::InvalidInput));
}

#[test]
fn too_long_message_is_rejected() {
    let mut m = Message::<Binding, TestAttr>::new(MessageClass::Request, Binding, tid());
    m.push_attribute(TestAttr::Software(vec![0u8; 0xFFF0]));
    m.push_attribute(TestAttr::Software(vec![0u8; 0x10]));
    assert_eq!(encode(m).err(), Some(ErrorKind::InvalidInput));
}

#[test]
fn too_long_value_is_rejected() {
    let mut m = Message::<Binding, TestAttr>::new(MessageClass::Request, Binding, tid());
    m.push_attribute(TestAttr::Software(vec![0u8; 0x1_0000]));
    assert_eq!(encode(m).err(), Some(ErrorKind::InvalidInput));
}

#[test]
fn encoder_in_pieces_and_full() {
    let m = Message::<Binding, TestAttr>::new(MessageClass::Request, Binding, tid());
    let mut encoder = MessageEncoder::<Binding, TestAttr>::new();
    assert!(encoder.is_idle());
    encoder.start_encoding(m).unwrap();
    assert_eq!(encoder.requiring_bytes(), ByteCount::Finite(20));
    let mut buf = [0u8; 8];
    assert_eq!(encoder.encode(&mut buf, Eos::new(false)), Ok(8));
    assert_eq!(&buf[..], &HEADER[..8]);
    assert_eq!(encoder.exact_requiring_bytes(), 12);
    // The type and the cookie are written; they take the second message
    // before the busy transaction id refuses it.
    let again = Message::<Binding, TestAttr>::new(MessageClass::Request, Binding, tid());
    assert_eq!(encoder.start_encoding(again), Err(ErrorKind::EncoderFull));
    assert_eq!(encoder.exact_requiring_bytes(), 18);
    assert!(!encoder.is_idle());
    let mut small = [0u8; 4];
    assert_eq!(encoder.encode(&mut small, Eos::new(true)), Err(ErrorKind::UnexpectedEos));
    assert_eq!(small, [0x00, 0x01, 0x21, 0x12]);
    let mut rest = [0u8; 16];
    assert_eq!(encoder.encode(&mut rest, Eos::new(false)), Ok(14));
    assert_eq!(&rest[..2], &[0xA4, 0x42]);
    assert_eq!(&rest[2..14], &HEADER[8..20]);
    assert!(encoder.is_idle());
    assert_eq!(encoder.exact_requiring_bytes(), 0);
}

#[test]
fn attribute_that_fails_to_encode_jams_the_encoder() {
    let mut m = Message::<Binding, TestAttr>::new(MessageClass::Request, Binding, tid());
    m.push_attribute(TestAttr::Software(vec![0u8; 0x1_0000]));
    let mut encoder = MessageEncoder::<Binding, TestAttr>::new();
    assert_eq!(encoder.start_encoding(m), Err(ErrorKind::InvalidInput));
    // The type, the cookie and the transaction id were given before.
    assert_eq!(encoder.exact_requiring_bytes(), 18);
    let mut buf = [0u8; 18];
    assert_eq!(encoder.encode(&mut buf, Eos::new(false)), Ok(18));
    assert!(encoder.is_idle());
    let good = Message::<Binding, TestAttr>::new(MessageClass::Request, Binding, tid());
    assert_eq!(encoder.start_encoding(good), Err(ErrorKind::EncoderFull));
    assert_eq!(encoder.exact_requiring_bytes(), 18);
}

#[test]
fn too_long_area_is_left_to_write() {
    let mut m = Message::<Binding, TestAttr>::new(MessageClass::Request, Binding, tid());
    m.push_attribute(TestAttr::Software(vec![0u8; 0xFFF0]));
    m.push_attribute(TestAttr::Software(vec![0u8; 0x10]));
    let mut encoder = MessageEncoder::<Binding, TestAttr>::new();
    assert_eq!(encoder.start_encoding(m), Err(ErrorKind::InvalidInput));
    // Type, cookie, transaction id and the area of 0xFFF4 + 0x14 bytes.
    assert_eq!(encoder.exact_requiring_bytes(), 18 + 0xFFF4 + 0x14);
}

#[test]
fn known_end_of_stream_before_the_area_ends_is_unexpected_eos() {
    // The attribute area announces 8 bytes; only 4 arrive before the end.
    let mut bytes = HEADER.to_vec();
    bytes[3] = 8;
    bytes.extend_from_slice(&[0x00, 0x24, 0x00, 0x04]);
    let mut decoder = MessageDecoder::<Binding, TestAttr>::new();
    assert_eq!(decoder.decode(&bytes, Eos::new(true)), Err(ErrorKind::UnexpectedEos));
    // With the end known to lie further on, the bytes offered and those known
    // to follow are held against the 4 bytes still needed after this call.
    let mut decoder = MessageDecoder::<Binding, TestAttr>::new();
    let eos = Eos::with_remaining_bytes(ByteCount::Finite(3));
    assert_eq!(decoder.decode(&bytes, eos), Ok(24));
    assert!(!decoder.is_idle());
    assert_eq!(decoder.decode(&[0, 0, 0, 9], Eos::new(true)), Ok(4));
    assert_eq!(decoder.finish_decoding().unwrap().attributes(), vec![&TestAttr::Priority(9)]);
    // One byte offered and 5 known to follow fall short of the 7 still needed.
    let mut decoder = MessageDecoder::<Binding, TestAttr>::new();
    let eos = Eos::with_remaining_bytes(ByteCount::Finite(5));
    assert_eq!(decoder.decode(&bytes[..21], eos), Err(ErrorKind::UnexpectedEos));
    let mut decoder = MessageDecoder::<Binding, TestAttr>::new();
    let eos = Eos::with_remaining_bytes(ByteCount::Finite(6));
    assert_eq!(decoder.decode(&bytes[..21], eos), Ok(21));
}

#[test]
fn bad_attribute_is_reported_as_soon_as_it_is_whole() {
    // A priority of the wrong length, then more of the area still to come.
    let mut bytes = HEADER.to_vec();
    bytes[3] = 16;
    bytes.extend_from_slice(&[0x00, 0x24, 0x00, 0x02, 1, 2, 0, 0]);
    let mut decoder = MessageDecoder::<Binding, TestAttr>::new();
    assert_eq!(decoder.decode(&bytes, Eos::new(false)), Err(ErrorKind::InvalidInput));
    // A good attribute whose bytes are all there is decoded without waiting.
    let mut bytes = HEADER.to_vec();
    bytes[3] = 16;
    bytes.extend_from_slice(&[0x00, 0x24, 0x00, 0x04, 0, 0, 0, 1, 0x00, 0x24]);
    let mut decoder = MessageDecoder::<Binding, TestAttr>::new();
    assert_eq!(decoder.decode(&bytes, Eos::new(false)), Ok(30));
    assert_eq!(decoder.requiring_bytes(), ByteCount::Finite(6));
    assert_eq!(decoder.decode(&[0x00, 0x03, 1, 2, 3, 0], Eos::new(false)), Err(ErrorKind::InvalidInput));
}

#[test]
fn one_call_and_two_calls_agree() {
    let mut m = Message::<Binding, TestAttr>::new(MessageClass::Request, Binding, tid());
    m.push_attribute(TestAttr::Software(b"hello".to_vec()));
    let bytes = encode(m).unwrap();
    for split in 0..bytes.len() {
        let mut two = MessageDecoder::<Binding, TestAttr>::new();
        assert_eq!(two.decode(&bytes[..split], Eos::new(false)), Ok(split));
        assert_eq!(two.decode(&bytes[split..], Eos::new(false)), Ok(bytes.len() - split));
        assert!(two.is_idle());
        let d = two.finish_decoding().unwrap();
        assert_eq!(d.attributes(), vec![&TestAttr::Software(b"hello".to_vec())]);
    }
}

#[test]
fn encoding_in_pieces_writes_the_same_bytes() {
    let mut m = Message::<Binding, TestAttr>::new(MessageClass::Request, Binding, tid());
    m.push_attribute(TestAttr::Software(b"pieces".to_vec()));
    m.push_attribute(TestAttr::Priority(3));
    let whole = encode(m.clone()).unwrap();
    let mut encoder = MessageEncoder::<Binding, TestAttr>::new();
    encoder.start_encoding(m).unwrap();
    assert_eq!(encoder.exact_requiring_bytes(), whole.len() as u64);
    let mut out = Vec::new();
    let mut written = 0u64;
    while !encoder.is_idle() {
        let mut buf = [0u8; 3];
        let n = encoder.encode(&mut buf, Eos::new(false)).unwrap();
        out.extend_from_slice(&buf[..n]);
        written += n as u64;
        assert_eq!(encoder.exact_requiring_bytes(), whole.len() as u64 - written);
    }
    assert_eq!(out, whole);
}

#[test]
fn decoding_in_chunks_with_bytes_offered_again() {
    let mut first = Message::<Binding, TestAttr>::new(MessageClass::Request, Binding, tid());
    first.push_attribute(TestAttr::Software(b"chunk".to_vec()));
    first.push_attribute(TestAttr::Priority(5));
    let a = encode(first).unwrap();
    let b = encode(Message::<Binding, TestAttr>::new(MessageClass::Indication, Binding, tid())).unwrap();
    let mut stream = a.clone();
    stream.extend_from_slice(&b);

    // One call with all the bytes.
    let mut one = MessageDecoder::<Binding, TestAttr>::new();
    assert_eq!(one.decode(&stream, Eos::new(true)), Ok(a.len()));
    let whole = one.finish_decoding().unwrap();

    for size in 1..stream.len() {
        let mut decoder = MessageDecoder::<Binding, TestAttr>::new();
        let mut carry: Vec<u8> = Vec::new();
        let mut taken = 0;
        let chunks: Vec<&[u8]> = stream.chunks(size).collect();
        for (i, chunk) in chunks.iter().enumerate() {
            let mut buf = carry.clone();
            buf.extend_from_slice(chunk);
            let eos = Eos::new(i + 1 == chunks.len());
            let n = decoder.decode(&buf, eos).unwrap();
            taken += n;
            carry = buf[n..].to_vec();
        }
        assert_eq!(taken, a.len());
        assert_eq!(carry, b);
        let d = decoder.finish_decoding().unwrap();
        assert_eq!(d.class(), whole.class());
        assert_eq!(d.transaction_id(), whole.transaction_id());
        assert_eq!(d.attributes(), whole.attributes());
    }
}

#[test]
fn chunks_and_one_call_fail_alike() {
    let mut bytes = HEADER.to_vec();
    bytes[3] = 8;
    bytes.extend_from_slice(&[0x00, 0x24, 0x00]);
    // The area needs 8 bytes, 3 arrive, and the stream ends.
    let mut one = MessageDecoder::<Binding, TestAttr>::new();
    assert_eq!(one.decode(&bytes, Eos::new(true)), Err(ErrorKind::UnexpectedEos));
    let mut chunked = MessageDecoder::<Binding, TestAttr>::new();
    assert_eq!(chunked.decode(&bytes[..10], Eos::new(false)), Ok(10));
    assert_eq!(chunked.decode(&bytes[10..], Eos::new(true)), Err(ErrorKind::UnexpectedEos));
}
