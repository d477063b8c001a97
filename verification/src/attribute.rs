//! Attributes: their types, their raw form, and the trait that a set of known
//! attributes implements.
use vstd::prelude::*;
use crate::types::ErrorKind;
use crate::message::{Message, MessageView, Method};
use crate::wire::{Tlv, tlv_bytes, padding_len, zeros, first_tlv, first_tlv_len, read16, push_u16, push_bytes, copy_range, zero_bytes, padding_len_exec, get_u16};
use vstd::slice::slice_subrange;

verus! {

/// The 16-bit type of an attribute.
#[derive(Debug, Clone, Copy, PartialEq, Eq, Structural, Hash)]
pub struct AttributeType {
    codepoint: u16,
}

impl AttributeType {
    /// The code point of this type.
    pub closed spec fn spec_code(self) -> u16 {
        self.codepoint
    }

    /// Makes the attribute type with the given code point.
    pub fn new(codepoint: u16) -> (r: AttributeType)
        ensures
            r.spec_code() == codepoint,
    {
        AttributeType { codepoint }
    }

    /// The code point of this type.
    pub fn as_u16(&self) -> (r: u16)
        ensures
            r == self.spec_code(),
    {
        self.codepoint
    }
}

impl AttributeType {
    /// Whether an agent that does not know this type must reject the message
    /// (code points below 0x8000).
    pub fn is_comprehension_required(&self) -> (r: bool)
        ensures
            r == (self.spec_code() < 0x8000),
    {
        self.codepoint < 0x8000
    }

    /// Whether an agent that does not know this type may ignore it
    /// (code points from 0x8000 on).
    pub fn is_comprehension_optional(&self) -> (r: bool)
        ensures
            r == (self.spec_code() >= 0x8000),
    {
        !self.is_comprehension_required()
    }
}

/// An attribute kept as its type and the bytes of its value.
#[derive(Debug, Clone)]
pub struct RawAttribute {
    attr_type: AttributeType,
    value: Vec<u8>,
}

impl View for RawAttribute {
    type V = (u16, Seq<u8>);

    closed spec fn view(&self) -> (u16, Seq<u8>) {
        (self.attr_type.spec_code(), self.value@)
    }
}

impl RawAttribute {
    /// Makes an attribute from its type and the bytes of its value.
    pub fn new(attr_type: AttributeType, value: Vec<u8>) -> (r: RawAttribute)
        ensures
            r@ == (attr_type.spec_code(), value@),
    {
        RawAttribute { attr_type, value }
    }

    /// The type of this attribute.
    pub fn get_type(&self) -> (r: AttributeType)
        ensures
            r.spec_code() == self@.0,
    {
        self.attr_type
    }

    /// The bytes of the value of this attribute.
    pub fn value(&self) -> (r: &Vec<u8>)
        ensures
            r@ == self@.1,
    {
        &self.value
    }
}

/// A set of attributes that a user of the codec knows how to encode and decode.
///
/// The specification functions say what the methods compute; the codec's
/// contracts are stated over them.
pub trait Attribute: Sized {
    /// The code of the type of this attribute.
    spec fn spec_type(&self) -> u16;

    /// What encoding the value of this attribute gives.
    spec fn spec_encode_value(&self) -> Result<Seq<u8>, ErrorKind>;

    /// What decoding `value` as an attribute of type `attr_type` gives;
    /// `None` when the type is not one that this set knows.
    spec fn spec_decode_value(attr_type: u16, value: Seq<u8>) -> Option<Result<Self, ErrorKind>>;

    /// What the hook run before encoding turns this attribute into, given the
    /// message that holds the attributes before it; by default the attribute
    /// itself.
    open spec fn spec_before_encode<M: Method>(&self, message: MessageView<M, Self>) -> Result<
        Self,
        ErrorKind,
    > {
        Ok(*self)
    }

    /// What the hook run after decoding turns this attribute into, given the
    /// message that holds the attributes before it; by default the attribute
    /// itself.
    open spec fn spec_after_decode<M: Method>(&self, message: MessageView<M, Self>) -> Result<
        Self,
        ErrorKind,
    > {
        Ok(*self)
    }

    /// The type of this attribute.
    fn get_type(&self) -> (r: AttributeType)
        ensures
            r.spec_code() == self.spec_type(),
    ;

    /// Encodes the value of this attribute (without type, length or padding).
    fn encode_value(&self) -> (r: Result<Vec<u8>, ErrorKind>)
        ensures
            match r {
                Ok(v) => self.spec_encode_value() == Ok::<Seq<u8>, ErrorKind>(v@),
                Err(e) => self.spec_encode_value() == Err::<Seq<u8>, ErrorKind>(e),
            },
    ;

    /// Decodes `value` as an attribute of type `attr_type`; `None` when the
    /// type is not one that this set knows.
    fn decode_value(attr_type: AttributeType, value: &[u8]) -> (r: Option<Result<Self, ErrorKind>>)
        ensures
            r == Self::spec_decode_value(attr_type.spec_code(), value@),
    ;

    /// Runs before the message that holds this attribute is encoded; `message`
    /// holds the attributes before this one.
    fn before_encode<M: Method>(&mut self, message: &Message<M, Self>) -> (r: Result<(), ErrorKind>)
        ensures
            match r {
                Ok(_) => old(self).spec_before_encode(message@) == Ok::<Self, ErrorKind>(*final(self)),
                Err(e) => old(self).spec_before_encode(message@) == Err::<Self, ErrorKind>(e),
            },
    ;

    /// Runs after the message that holds this attribute was decoded; `message`
    /// holds the attributes before this one.
    fn after_decode<M: Method>(&mut self, message: &Message<M, Self>) -> (r: Result<(), ErrorKind>)
        ensures
            match r {
                Ok(_) => old(self).spec_after_decode(message@) == Ok::<Self, ErrorKind>(*final(self)),
                Err(e) => old(self).spec_after_decode(message@) == Err::<Self, ErrorKind>(e),
            },
    ;
}

/// An attribute of a message: one of the known set, or one kept raw; either
/// with the padding bytes it was decoded with.
#[derive(Debug, Clone)]
#[allow(inconsistent_fields)]
pub enum LosslessAttribute<A> {
    Known { inner: A, padding: Option<Vec<u8>> },
    Unknown { inner: RawAttribute, padding: Option<Vec<u8>> },
}

/// The abstract form of a `LosslessAttribute`.
pub ghost enum AttrView<A> {
    Known { inner: A, padding: Option<Seq<u8>> },
    Unknown { attr_type: u16, value: Seq<u8>, padding: Option<Seq<u8>> },
}

/// The bytes of an optional byte vector.
pub open spec fn opt_bytes(p: Option<Vec<u8>>) -> Option<Seq<u8>> {
    match p {
        Some(v) => Some(v@),
        None => None,
    }
}

impl<A> View for LosslessAttribute<A> {
    type V = AttrView<A>;

    open spec fn view(&self) -> AttrView<A> {
        match self {
            LosslessAttribute::Known { inner, padding } => AttrView::Known {
                inner: *inner,
                padding: opt_bytes(*padding),
            },
            LosslessAttribute::Unknown { inner, padding } => AttrView::Unknown {
                attr_type: inner@.0,
                value: inner@.1,
                padding: opt_bytes(*padding),
            },
        }
    }
}

impl<A: Attribute> LosslessAttribute<A> {
    /// Wraps a known attribute, with no padding recorded.
    pub fn new(inner: A) -> (r: Self)
        ensures
            r@ == (AttrView::Known { inner, padding: None }),
    {
        LosslessAttribute::Known { inner, padding: None }
    }

    /// The known attribute, if this is one.
    pub fn as_known(&self) -> (r: Option<&A>)
        ensures
            match self@ {
                AttrView::Known { inner, .. } => r == Some(&inner),
                AttrView::Unknown { .. } => r is None,
            },
    {
        match self {
            LosslessAttribute::Known { inner, .. } => Some(inner),
            LosslessAttribute::Unknown { .. } => None,
        }
    }

    /// The raw attribute, if this is not a known one.
    pub fn as_unknown(&self) -> (r: Option<&RawAttribute>)
        ensures
            match self@ {
                AttrView::Known { .. } => r is None,
                AttrView::Unknown { attr_type, value, .. } => r matches Some(raw) && raw@ == (
                attr_type, value),
            },
    {
        match self {
            LosslessAttribute::Known { .. } => None,
            LosslessAttribute::Unknown { inner, .. } => Some(inner),
        }
    }
}

// ---------------------------------------------------------------------------
// Attributes on the wire.

/// The padding written after a value of `n` bytes: the recorded padding when it
/// has the right length, zero bytes otherwise.
pub open spec fn pad_for(padding: Option<Seq<u8>>, n: nat) -> Seq<u8> {
    match padding {
        Some(p) => if p.len() == padding_len(n) {
            p
        } else {
            zeros(padding_len(n))
        },
        None => zeros(padding_len(n)),
    }
}

/// How an attribute stands on the wire; an error when its value does not
/// encode, or is 0x10000 bytes or longer (`InvalidInput`).
pub open spec fn attr_tlv<A: Attribute>(a: AttrView<A>) -> Result<Tlv, ErrorKind> {
    match a {
        AttrView::Known { inner, padding } => match inner.spec_encode_value() {
            Err(e) => Err(e),
            Ok(v) => if v.len() >= 0x1_0000 {
                Err(ErrorKind::InvalidInput)
            } else {
                Ok(Tlv { attr_type: inner.spec_type(), value: v, padding: pad_for(padding, v.len()) })
            },
        },
        AttrView::Unknown { attr_type, value, padding } => if value.len() >= 0x1_0000 {
            Err(ErrorKind::InvalidInput)
        } else {
            Ok(Tlv { attr_type, value, padding: pad_for(padding, value.len()) })
        },
    }
}

/// How a sequence of attributes stands on the wire; the error of the first
/// attribute that cannot be encoded, if any.
pub open spec fn attrs_tlvs<A: Attribute>(s: Seq<AttrView<A>>) -> Result<Seq<Tlv>, ErrorKind>
    decreases s.len(),
{
    if s.len() == 0 {
        Ok(Seq::empty())
    } else {
        match attrs_tlvs(s.drop_last()) {
            Err(e) => Err(e),
            Ok(ts) => match attr_tlv(s.last()) {
                Err(e) => Err(e),
                Ok(t) => Ok(ts.push(t)),
            },
        }
    }
}

/// The attribute that one attribute on the wire decodes to: a known one when
/// the set of known attributes takes its type, a raw one otherwise; the
/// padding is recorded.
pub open spec fn attr_of_tlv<A: Attribute>(t: Tlv) -> Result<AttrView<A>, ErrorKind> {
    match A::spec_decode_value(t.attr_type, t.value) {
        None => Ok(AttrView::Unknown { attr_type: t.attr_type, value: t.value, padding: Some(t.padding) }),
        Some(Ok(a)) => Ok(AttrView::Known { inner: a, padding: Some(t.padding) }),
        Some(Err(e)) => Err(e),
    }
}

/// What decoding the attribute area `b` gives, attribute by attribute from the
/// front: `UnexpectedEos` when an attribute runs past the end of the area, or
/// the error with which a known attribute's value fails to decode.
pub open spec fn decode_attrs<A: Attribute>(b: Seq<u8>) -> Result<Seq<AttrView<A>>, ErrorKind>
    decreases b.len(),
{
    if b.len() == 0 {
        Ok(Seq::empty())
    } else if b.len() < 4 || first_tlv_len(b) > b.len() {
        Err(ErrorKind::UnexpectedEos)
    } else {
        match attr_of_tlv::<A>(first_tlv(b)) {
            Err(e) => Err(e),
            Ok(a) => match decode_attrs::<A>(b.subrange(first_tlv_len(b), b.len() as int)) {
                Err(e) => Err(e),
                Ok(rest) => Ok(seq![a] + rest),
            },
        }
    }
}

/// `r` with `prefix` put in front of its attributes.
pub open spec fn prepend<A>(prefix: Seq<AttrView<A>>, r: Result<Seq<AttrView<A>>, ErrorKind>) -> Result<Seq<AttrView<A>>, ErrorKind> {
    match r {
        Err(e) => Err(e),
        Ok(s) => Ok(prefix + s),
    }
}

/// Appends the wire form of `attr` to `out`.
pub fn encode_attribute<A: Attribute>(attr: &LosslessAttribute<A>, out: &mut Vec<u8>) -> (r: Result<(), ErrorKind>)
    ensures
        match r {
            Ok(_) => attr_tlv(attr@) matches Ok(t) && final(out)@ == old(out)@ + tlv_bytes(t),
            Err(e) => attr_tlv(attr@) == Err::<Tlv, ErrorKind>(e),
        },
{
    let (attr_type, value, padding): (u16, Vec<u8>, &Option<Vec<u8>>) = match attr {
        LosslessAttribute::Known { inner, padding } => {
            let t = inner.get_type();
            let v = inner.encode_value()?;
            (t.as_u16(), v, padding)
        },
        LosslessAttribute::Unknown { inner, padding } => {
            let v = copy_range(inner.value().as_slice(), 0, inner.value().len());
            (inner.get_type().as_u16(), v, padding)
        },
    };
    if value.len() >= 0x1_0000 {
        return Err(ErrorKind::InvalidInput);
    }
    let pad_len = padding_len_exec(value.len());
    let ghost old_out = out@;
    push_u16(out, attr_type);
    push_u16(out, value.len() as u16);
    push_bytes(out, value.as_slice());
    match padding {
        Some(p) if p.len() == pad_len => {
            push_bytes(out, p.as_slice());
        },
        _ => {
            let z = zero_bytes(pad_len);
            push_bytes(out, z.as_slice());
        },
    }
    proof {
        let t = attr_tlv(attr@).unwrap();
        assert(final(out)@ =~= old_out + tlv_bytes(t));
    }
    Ok(())
}

/// Decodes one attribute from its type, value and padding bytes.
fn decode_attribute<A: Attribute>(attr_type: u16, value: &[u8], padding: Vec<u8>) -> (r: Result<LosslessAttribute<A>, ErrorKind>)
    ensures
        match r {
            Ok(a) => attr_of_tlv::<A>(Tlv { attr_type, value: value@, padding: padding@ }) == Ok::<AttrView<A>, ErrorKind>(a@),
            Err(e) => attr_of_tlv::<A>(Tlv { attr_type, value: value@, padding: padding@ }) == Err::<AttrView<A>, ErrorKind>(e),
        },
{
    match A::decode_value(AttributeType::new(attr_type), value) {
        None => {
            let v = copy_range(value, 0, value.len());
            assert(v@ =~= value@);
            Ok(LosslessAttribute::Unknown { inner: RawAttribute::new(AttributeType::new(attr_type), v), padding: Some(padding) })
        },
        Some(Ok(a)) => Ok(LosslessAttribute::Known { inner: a, padding: Some(padding) }),
        Some(Err(e)) => Err(e),
    }
}

/// Whether `b` does not yet hold a whole attribute: fewer than four bytes, or
/// fewer than its header announces.
pub open spec fn tlv_incomplete(b: Seq<u8>) -> bool {
    b.len() < 4 || first_tlv_len(b) > b.len()
}

/// What decoding the whole attributes at the front of `b` gives, appended to
/// `done`: each attribute is decoded as soon as all of its bytes are there; the
/// bytes of an attribute that is not yet whole are handed back.  The error of
/// the first known attribute whose value fails to decode, if any.
pub open spec fn take_attrs<A: Attribute>(done: Seq<AttrView<A>>, b: Seq<u8>) -> Result<(Seq<AttrView<A>>, Seq<u8>), ErrorKind>
    decreases b.len(),
{
    if tlv_incomplete(b) {
        Ok((done, b))
    } else {
        match attr_of_tlv::<A>(first_tlv(b)) {
            Err(e) => Err(e),
            Ok(a) => take_attrs(done.push(a), b.subrange(first_tlv_len(b), b.len() as int)),
        }
    }
}

/// The bytes that `take_attrs` hands back never hold a whole attribute.
pub proof fn lemma_take_attrs_leftover<A: Attribute>(done: Seq<AttrView<A>>, b: Seq<u8>)
    requires
        take_attrs::<A>(done, b) is Ok,
    ensures
        tlv_incomplete(take_attrs::<A>(done, b).unwrap().1),
    decreases b.len(),
{
    if !tlv_incomplete(b) {
        let a = attr_of_tlv::<A>(first_tlv(b)).unwrap();
        lemma_take_attrs_leftover::<A>(done.push(a), b.subrange(first_tlv_len(b), b.len() as int));
    }
}

/// Taking attributes from `b` and then from what is left followed by `y` does
/// what taking them from `b + y` at once does.
pub proof fn lemma_take_attrs_append<A: Attribute>(done: Seq<AttrView<A>>, b: Seq<u8>, y: Seq<u8>)
    ensures
        take_attrs::<A>(done, b + y) == match take_attrs::<A>(done, b) {
            Ok((d, p)) => take_attrs::<A>(d, p + y),
            Err(e) => Err(e),
        },
    decreases b.len(),
{
    if !tlv_incomplete(b) {
        let n = first_tlv_len(b);
        let by = b + y;
        assert(by.len() >= 4);
        assert(read16(by, 2) == read16(b, 2) && read16(by, 0) == read16(b, 0)) by {
            assert(by[0] == b[0] && by[1] == b[1] && by[2] == b[2] && by[3] == b[3]);
        }
        assert(first_tlv(by) == first_tlv(b)) by {
            assert(first_tlv(by).value =~= first_tlv(b).value);
            assert(first_tlv(by).padding =~= first_tlv(b).padding);
        }
        assert(by.subrange(n, by.len() as int) =~= b.subrange(n, b.len() as int) + y);
        match attr_of_tlv::<A>(first_tlv(b)) {
            Ok(a) => {
                lemma_take_attrs_append::<A>(done.push(a), b.subrange(n, b.len() as int), y);
            },
            Err(_) => {},
        }
    }
}

/// Taking the attributes of a whole area agrees with `decode_attrs`: the area
/// decodes exactly when nothing is left over, and a left-over attribute that is
/// not whole is an `UnexpectedEos` error.
pub proof fn lemma_take_attrs_whole<A: Attribute>(done: Seq<AttrView<A>>, b: Seq<u8>)
    ensures
        match take_attrs::<A>(done, b) {
            Err(e) => decode_attrs::<A>(b) == Err::<Seq<AttrView<A>>, ErrorKind>(e),
            Ok((d, p)) => if p.len() == 0 {
                prepend(done, decode_attrs::<A>(b)) == Ok::<Seq<AttrView<A>>, ErrorKind>(d)
            } else {
                decode_attrs::<A>(b) == Err::<Seq<AttrView<A>>, ErrorKind>(ErrorKind::UnexpectedEos)
            },
        },
    decreases b.len(),
{
    if tlv_incomplete(b) {
        if b.len() == 0 {
            assert(done + Seq::<AttrView<A>>::empty() =~= done);
        }
    } else {
        let n = first_tlv_len(b);
        let rest = b.subrange(n, b.len() as int);
        match attr_of_tlv::<A>(first_tlv(b)) {
            Ok(a) => {
                lemma_take_attrs_whole::<A>(done.push(a), rest);
                match decode_attrs::<A>(rest) {
                    Ok(v) => {
                        assert(done.push(a) + v =~= done + (seq![a] + v));
                    },
                    Err(_) => {},
                }
            },
            Err(_) => {},
        }
    }
}

/// Decodes the whole attributes at the front of `b` and appends them to
/// `done`; returns the bytes of an attribute that is not yet whole.
pub fn take_attributes<A: Attribute>(done: &mut Vec<LosslessAttribute<A>>, b: &[u8]) -> (r: Result<Vec<u8>, ErrorKind>)
    ensures
        match take_attrs::<A>(old(done)@.map_values(|a: LosslessAttribute<A>| a@), b@) {
            Ok((d, p)) => r matches Ok(v) && v@ == p && final(done)@.map_values(|a: LosslessAttribute<A>| a@) == d,
            Err(e) => r == Err::<Vec<u8>, ErrorKind>(e),
        },
{
    let ghost start = old(done)@.map_values(|a: LosslessAttribute<A>| a@);
    let mut off: usize = 0;
    assert(b@.subrange(0, b@.len() as int) =~= b@);
    loop
        invariant
            off <= b@.len(),
            start == old(done)@.map_values(|a: LosslessAttribute<A>| a@),
            take_attrs::<A>(start, b@) == take_attrs::<A>(done@.map_values(|a: LosslessAttribute<A>| a@), b@.subrange(off as int, b@.len() as int)),
        decreases b@.len() - off,
    {
        let ghost rest = b@.subrange(off as int, b@.len() as int);
        if b.len() - off < 4 {
            let v = copy_range(b, off, b.len());
            proof {
                assert(tlv_incomplete(rest));
                assert(v@ =~= rest);
            }
            return Ok(v);
        }
        let attr_type = get_u16(b, off);
        let len = get_u16(b, off + 2) as usize;
        let pad = padding_len_exec(len);
        proof {
            assert(read16(rest, 0) == attr_type);
            assert(read16(rest, 2) == len);
        }
        if b.len() - off - 4 < len + pad {
            let v = copy_range(b, off, b.len());
            proof {
                assert(tlv_incomplete(rest));
                assert(v@ =~= rest);
            }
            return Ok(v);
        }
        let value = slice_subrange(b, off + 4, off + 4 + len);
        let padding = copy_range(b, off + 4 + len, off + 4 + len + pad);
        proof {
            assert(first_tlv(rest) == Tlv { attr_type, value: value@, padding: padding@ }) by {
                assert(first_tlv(rest).value =~= value@);
                assert(first_tlv(rest).padding =~= padding@);
            }
            assert(rest.subrange(first_tlv_len(rest), rest.len() as int) =~= b@.subrange(off + 4 + len + pad, b@.len() as int));
        }
        let attr = match decode_attribute::<A>(attr_type, value, padding) {
            Ok(a) => a,
            Err(e) => {
                return Err(e);
            },
        };
        let ghost prev = done@.map_values(|a: LosslessAttribute<A>| a@);
        done.push(attr);
        off = off + 4 + len + pad;
        proof {
            assert(done@.map_values(|a: LosslessAttribute<A>| a@) =~= prev.push(attr@));
        }
    }
}

} // verus!
