//! The byte layout of a STUN message: big-endian integers, the 20-byte header
//! and the type-length-value framing of attributes.
use vstd::prelude::*;
use crate::types::{ErrorKind, MAGIC_COOKIE};
use crate::message_type::{Type, type_from_u16, type_to_u16};

verus! {

/// Length of a STUN header in bytes.
pub const HEADER_LEN: usize = 20;

/// The two bytes of `x`, most significant first.
pub open spec fn be16(x: u16) -> Seq<u8> {
    seq![(x / 256) as u8, (x % 256) as u8]
}

/// The four bytes of `x`, most significant first.
pub open spec fn be32(x: u32) -> Seq<u8> {
    seq![(x / 0x100_0000) as u8, ((x / 0x1_0000) % 256) as u8, ((x / 256) % 256) as u8, (x % 256) as u8]
}

/// The big-endian 16-bit number at offset `i` of `b`.
pub open spec fn read16(b: Seq<u8>, i: int) -> u16 {
    (b[i] * 256 + b[i + 1]) as u16
}

/// The big-endian 32-bit number at offset `i` of `b`.
pub open spec fn read32(b: Seq<u8>, i: int) -> u32 {
    (b[i] * 0x100_0000 + b[i + 1] * 0x1_0000 + b[i + 2] * 256 + b[i + 3]) as u32
}

/// Number of padding bytes that follow a value of `n` bytes, so that the
/// attribute ends on a multiple of four bytes.
pub open spec fn padding_len(n: nat) -> nat {
    ((4 - (n % 4) as int) % 4) as nat
}

/// `n` zero bytes.
pub open spec fn zeros(n: nat) -> Seq<u8> {
    Seq::new(n, |i: int| 0u8)
}

/// The 20-byte header with the given message-type field, message length and
/// transaction id.
pub open spec fn header_bytes(message_type: u16, message_len: u16, transaction_id: Seq<u8>) -> Seq<u8> {
    be16(message_type) + be16(message_len) + be32(MAGIC_COOKIE) + transaction_id
}

/// What decoding a 20-byte header gives: the message type, the length of the
/// attributes that follow, and the transaction id; an `InvalidInput` error when
/// the type's two most significant bits are not zero or the magic cookie differs.
pub open spec fn parse_header(b: Seq<u8>) -> Result<(Type, u16, Seq<u8>), ErrorKind>
    recommends
        b.len() == HEADER_LEN,
{
    match type_from_u16(read16(b, 0)) {
        Err(e) => Err(e),
        Ok(t) => if read32(b, 4) != MAGIC_COOKIE {
            Err(ErrorKind::InvalidInput)
        } else {
            Ok((t, read16(b, 2), b.subrange(8, 20)))
        },
    }
}

/// One attribute as it stands on the wire.
pub ghost struct Tlv {
    pub attr_type: u16,
    pub value: Seq<u8>,
    pub padding: Seq<u8>,
}

/// The bytes of one attribute: type, value length, value and padding.
pub open spec fn tlv_bytes(t: Tlv) -> Seq<u8> {
    be16(t.attr_type) + be16(t.value.len() as u16) + t.value + t.padding
}

/// Whether an attribute can stand on the wire as it is: its value length fits
/// in 16 bits and its padding has the length that the value asks for.
pub open spec fn tlv_wf(t: Tlv) -> bool {
    &&& t.value.len() < 0x1_0000
    &&& t.padding.len() == padding_len(t.value.len())
}

/// The bytes of a sequence of attributes, one after the other.
pub open spec fn tlvs_bytes(s: Seq<Tlv>) -> Seq<u8>
    decreases s.len(),
{
    if s.len() == 0 {
        Seq::empty()
    } else {
        tlv_bytes(s[0]) + tlvs_bytes(s.drop_first())
    }
}

/// Number of bytes that the first attribute of `b` spans, padding included,
/// as its header says; `b` holds at least four bytes.
pub open spec fn first_tlv_len(b: Seq<u8>) -> int {
    4 + read16(b, 2) + padding_len(read16(b, 2) as nat)
}

/// The first attribute of `b`, which spans `first_tlv_len(b)` bytes.
pub open spec fn first_tlv(b: Seq<u8>) -> Tlv {
    let l = read16(b, 2) as int;
    Tlv {
        attr_type: read16(b, 0),
        value: b.subrange(4, 4 + l),
        padding: b.subrange(4 + l, first_tlv_len(b)),
    }
}

/// What splitting the attribute area `b` into attributes gives: an
/// `UnexpectedEos` error when an attribute runs past its end.
pub open spec fn parse_tlvs(b: Seq<u8>) -> Result<Seq<Tlv>, ErrorKind>
    decreases b.len(),
{
    if b.len() == 0 {
        Ok(Seq::empty())
    } else if b.len() < 4 || first_tlv_len(b) > b.len() {
        Err(ErrorKind::UnexpectedEos)
    } else {
        match parse_tlvs(b.subrange(first_tlv_len(b), b.len() as int)) {
            Err(e) => Err(e),
            Ok(rest) => Ok(seq![first_tlv(b)] + rest),
        }
    }
}

// ---------------------------------------------------------------------------
// Executable helpers.

/// Appends the two bytes of `x`, most significant first.
pub(crate) fn push_u16(out: &mut Vec<u8>, x: u16)
    ensures
        final(out)@ == old(out)@ + be16(x),
{
    out.push((x / 256) as u8);
    out.push((x % 256) as u8);
    assert(final(out)@ =~= old(out)@ + be16(x));
}

/// Appends the four bytes of `x`, most significant first.
pub(crate) fn push_u32(out: &mut Vec<u8>, x: u32)
    ensures
        final(out)@ == old(out)@ + be32(x),
{
    out.push((x / 0x100_0000) as u8);
    out.push(((x / 0x1_0000) % 256) as u8);
    out.push(((x / 256) % 256) as u8);
    out.push((x % 256) as u8);
    assert(final(out)@ =~= old(out)@ + be32(x));
}

/// Appends all bytes of `bytes`.
pub(crate) fn push_bytes(out: &mut Vec<u8>, bytes: &[u8])
    ensures
        final(out)@ == old(out)@ + bytes@,
{
    let mut i: usize = 0;
    while i < bytes.len()
        invariant
            i <= bytes@.len(),
            out@ == old(out)@ + bytes@.subrange(0, i as int),
        decreases bytes@.len() - i,
    {
        out.push(bytes[i]);
        i = i + 1;
        assert(out@ =~= old(out)@ + bytes@.subrange(0, i as int));
    }
    assert(bytes@.subrange(0, bytes@.len() as int) =~= bytes@);
}

/// The big-endian 16-bit number at offset `i` of `b`.
pub(crate) fn get_u16(b: &[u8], i: usize) -> (r: u16)
    requires
        i + 2 <= b@.len(),
    ensures
        r == read16(b@, i as int),
{
    (b[i] as u16) * 256 + (b[i + 1] as u16)
}

/// The big-endian 32-bit number at offset `i` of `b`.
pub(crate) fn get_u32(b: &[u8], i: usize) -> (r: u32)
    requires
        i + 4 <= b@.len(),
    ensures
        r == read32(b@, i as int),
{
    (b[i] as u32) * 0x100_0000 + (b[i + 1] as u32) * 0x1_0000 + (b[i + 2] as u32) * 256 + (b[i
        + 3] as u32)
}

/// A copy of the bytes `b[start..end]`.
pub(crate) fn copy_range(b: &[u8], start: usize, end: usize) -> (r: Vec<u8>)
    requires
        start <= end <= b@.len(),
    ensures
        r@ == b@.subrange(start as int, end as int),
{
    let mut r: Vec<u8> = Vec::new();
    let mut i: usize = start;
    while i < end
        invariant
            start <= i <= end <= b@.len(),
            r@ == b@.subrange(start as int, i as int),
        decreases end - i,
    {
        r.push(b[i]);
        i = i + 1;
        assert(r@ =~= b@.subrange(start as int, i as int));
    }
    r
}

/// `n` zero bytes.
pub(crate) fn zero_bytes(n: usize) -> (r: Vec<u8>)
    ensures
        r@ == zeros(n as nat),
{
    let mut r: Vec<u8> = Vec::new();
    let mut i: usize = 0;
    while i < n
        invariant
            i <= n,
            r@ == zeros(i as nat),
        decreases n - i,
    {
        r.push(0u8);
        i = i + 1;
        assert(r@ =~= zeros(i as nat));
    }
    r
}

/// Number of padding bytes that follow a value of `n` bytes.
pub(crate) fn padding_len_exec(n: usize) -> (r: usize)
    ensures
        r == padding_len(n as nat),
        r < 4,
{
    (4 - n % 4) % 4
}

// ---------------------------------------------------------------------------
// Laws of the byte layout.

proof fn lemma_read16_be16(b: Seq<u8>, i: int)
    requires
        0 <= i,
        i + 2 <= b.len(),
    ensures
        be16(read16(b, i)) == b.subrange(i, i + 2),
{
    let x = read16(b, i);
    assert(x == b[i] * 256 + b[i + 1]);
    assert(be16(x) =~= b.subrange(i, i + 2));
}

#[verifier::spinoff_prover]
proof fn lemma_read32_be32(b: Seq<u8>, i: int)
    requires
        0 <= i,
        i + 4 <= b.len(),
    ensures
        be32(read32(b, i)) == b.subrange(i, i + 4),
{
    let x = read32(b, i);
    assert(x == b[i] * 0x100_0000 + b[i + 1] * 0x1_0000 + b[i + 2] * 256 + b[i + 3]);
    assert(be32(x) =~= b.subrange(i, i + 4));
}

/// The bytes of attributes grow by the bytes of the one appended.
pub proof fn lemma_tlvs_bytes_push(s: Seq<Tlv>, t: Tlv)
    ensures
        tlvs_bytes(s.push(t)) == tlvs_bytes(s) + tlv_bytes(t),
    decreases s.len(),
{
    if s.len() == 0 {
        assert(s.push(t).drop_first() =~= Seq::<Tlv>::empty());
        assert(tlvs_bytes(Seq::<Tlv>::empty()) == Seq::<u8>::empty());
        assert(tlvs_bytes(s.push(t)) =~= tlv_bytes(t));
    } else {
        lemma_tlvs_bytes_push(s.drop_first(), t);
        assert(s.push(t).drop_first() =~= s.drop_first().push(t));
        assert(tlvs_bytes(s.push(t)) =~= tlvs_bytes(s) + tlv_bytes(t));
    }
}

/// Decoding an encoded header gives back its type, length and transaction id.
pub proof fn lemma_header_encode_decode(t: Type, message_len: u16, transaction_id: Seq<u8>)
    requires
        t.method.spec_value() < 4096,
        transaction_id.len() == 12,
    ensures
        header_bytes(type_to_u16(t), message_len, transaction_id).len() == HEADER_LEN,
        parse_header(header_bytes(type_to_u16(t), message_len, transaction_id)) == Ok::<
            (Type, u16, Seq<u8>),
            ErrorKind,
        >((t, message_len, transaction_id)),
{
    let v = type_to_u16(t);
    let b = header_bytes(v, message_len, transaction_id);
    crate::message_type::lemma_type_encode_decode(t);
    assert(b[0] == (v / 256) as u8);
    assert(b[1] == (v % 256) as u8);
    assert(b[2] == (message_len / 256) as u8);
    assert(b[3] == (message_len % 256) as u8);
    assert(b[4] == 0x21u8);
    assert(b[5] == 0x12u8);
    assert(b[6] == 0xA4u8);
    assert(b[7] == 0x42u8);
    assert(b.subrange(8, 20) =~= transaction_id);
}

/// A header that decodes is the encoding of what it decodes to.
pub proof fn lemma_header_decode_encode(b: Seq<u8>)
    requires
        b.len() == HEADER_LEN,
        parse_header(b) is Ok,
    ensures
        ({
            let (t, len, id) = parse_header(b).unwrap();
            header_bytes(type_to_u16(t), len, id) == b
        }),
{
    let (t, len, id) = parse_header(b).unwrap();
    crate::message_type::lemma_type_decode_encode(read16(b, 0));
    lemma_read16_be16(b, 0);
    lemma_read16_be16(b, 2);
    lemma_read32_be32(b, 4);
    assert(header_bytes(type_to_u16(t), len, id) =~= b);
}

pub(crate) proof fn lemma_first_tlv_of_bytes(t: Tlv, rest: Seq<u8>)
    requires
        tlv_wf(t),
    ensures
        ({
            let b = tlv_bytes(t) + rest;
            &&& b.len() >= 4
            &&& first_tlv_len(b) == tlv_bytes(t).len()
            &&& first_tlv(b) == t
            &&& b.subrange(first_tlv_len(b), b.len() as int) == rest
        }),
{
    let b = tlv_bytes(t) + rest;
    let l = t.value.len() as u16;
    assert(b[0] == (t.attr_type / 256) as u8);
    assert(b[1] == (t.attr_type % 256) as u8);
    assert(b[2] == (l / 256) as u8);
    assert(b[3] == (l % 256) as u8);
    assert(read16(b, 2) == l);
    assert(read16(b, 0) == t.attr_type);
    assert(first_tlv(b).value =~= t.value);
    assert(first_tlv(b).padding =~= t.padding);
    assert(b.subrange(first_tlv_len(b), b.len() as int) =~= rest);
}

/// Splitting the bytes of well-formed attributes gives back those attributes.
#[verifier::spinoff_prover]
#[verifier::rlimit(40)]
pub proof fn lemma_tlvs_encode_decode(s: Seq<Tlv>)
    requires
        forall|i: int| 0 <= i < s.len() ==> tlv_wf(#[trigger] s[i]),
    ensures
        parse_tlvs(tlvs_bytes(s)) == Ok::<Seq<Tlv>, ErrorKind>(s),
    decreases s.len(),
{
    if s.len() > 0 {
        let rest = tlvs_bytes(s.drop_first());
        let b = tlvs_bytes(s);
        assert(tlv_wf(s[0]));
        lemma_first_tlv_of_bytes(s[0], rest);
        lemma_tlvs_encode_decode(s.drop_first());
        assert(b == tlv_bytes(s[0]) + rest);
        assert(b.len() > 0);
        assert(parse_tlvs(b) == Ok::<Seq<Tlv>, ErrorKind>(seq![s[0]] + s.drop_first()));
        assert(seq![s[0]] + s.drop_first() =~= s);
    } else {
        assert(s =~= Seq::<Tlv>::empty());
    }
}

/// An attribute area that splits into attributes is the bytes of those
/// attributes, each of them well-formed.
pub proof fn lemma_tlvs_decode_encode(b: Seq<u8>)
    requires
        parse_tlvs(b) is Ok,
    ensures
        tlvs_bytes(parse_tlvs(b).unwrap()) == b,
        forall|i: int|
            0 <= i < parse_tlvs(b).unwrap().len() ==> tlv_wf(#[trigger] parse_tlvs(b).unwrap()[i]),
    decreases b.len(),
{
    if b.len() > 0 {
        let n = first_tlv_len(b);
        let rest = b.subrange(n, b.len() as int);
        lemma_tlvs_decode_encode(rest);
        let t = first_tlv(b);
        let s = parse_tlvs(b).unwrap();
        assert(s == seq![t] + parse_tlvs(rest).unwrap());
        assert(s.drop_first() =~= parse_tlvs(rest).unwrap());
        lemma_read16_be16(b, 0);
        lemma_read16_be16(b, 2);
        assert(t.value.len() == read16(b, 2));
        assert(tlv_bytes(t) =~= b.subrange(0, n));
        assert(tlvs_bytes(s) =~= b);
        assert forall|i: int| 0 <= i < s.len() implies tlv_wf(#[trigger] s[i]) by {
            if i > 0 {
                assert(s[i] == parse_tlvs(rest).unwrap()[i - 1]);
            }
        }
    }
}

} // verus!
