# stun_message

Encoding and decoding of STUN messages (RFC 5389, section 6), verified with Verus.

* `src/types.rs` – the error kinds, byte counts and end-of-stream information of the
  codec, the 12-bit method code and the 96-bit transaction id.
* `src/message_type.rs` – message classes and the 16-bit message-type field that
  interleaves class and method bits, with the laws that encoding and decoding it
  undo each other.
* `src/wire.rs` – the byte layout: big-endian integers, the 20-byte header and the
  type-length-value framing of attributes with their padding, and its laws.
* `src/attribute.rs` – attribute types, raw attributes, the `Attribute` trait that a
  set of known attributes implements, and encoding and decoding of attribute areas.
* `src/message.rs` – the `Method` trait, messages, and the hooks that attributes run
  before encoding and after decoding.
* `src/decoder.rs`, `src/encoder.rs` – incremental decoding and encoding, specified
  as state machines over the abstract state of the decoder and encoder; each
  attribute is decoded as soon as all of its bytes have arrived.
* `src/roundtrip.rs` – laws over whole messages: the layout of encoded messages,
  decoding what was encoded, encoding what was decoded, the two joined from
  encoder to decoder, decoding and encoding in several calls, the count of bytes
  taken and still to write, and decoding one message after another.
* `app/lib.rs` – the decoder and encoder as `bytecodec` `Decode` and `Encode`
  implementations.

## Behaviour worth knowing

* End of stream while decoding the attribute area: when the end of the stream is
  known to lie `r > 0` bytes after the buffer, a call fails with `UnexpectedEos`
  only when `r` and the bytes it is offered together fall short of what the area
  still needs; when the stream ends right after the buffer (`r == 0`), any byte
  still needed is an error.  As the check counts the bytes offered to each call,
  decoding in several calls with such an `r` on the last call can differ from
  decoding in one call; `lemma_decode_in_chunks` states the agreement for every
  other end of stream.
* The encoder writes five parts one after the other: message type, message
  length, magic cookie, transaction id and attribute area.  `start_encoding`
  gives them the new message in the order type, cookie, transaction id,
  attributes, length, and a part that is still busy refuses with `EncoderFull`
  without taking back what the parts before it took (`start_step`).  An
  attribute that fails to encode leaves the attribute part busy for good: every
  later `start_encoding` on that encoder is refused.
* `Type::as_u16` lays the method and class bits out as the figure of RFC 5389,
  section 6, shows them, which `Type::from_u16` reads back.
