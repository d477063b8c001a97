//! Incremental decoding of STUN messages from a stream of bytes.
use vstd::prelude::*;
use vstd::slice::slice_subrange;
use core::marker::PhantomData;
use crate::types::{ByteCount, Eos, ErrorKind, TransactionId};
use crate::message_type::Type;
use crate::wire::{HEADER_LEN, parse_header, push_bytes, get_u16, get_u32, copy_range};
use crate::attribute::{Attribute, AttrView, LosslessAttribute, take_attrs, tlv_incomplete, take_attributes, lemma_take_attrs_leftover};
use crate::message::{Message, MessageView, Method, after_decode_all, run_after_decode};

verus! {

/// The smaller of two numbers.
pub open spec fn min_nat(a: nat, b: nat) -> nat {
    if a <= b {
        a
    } else {
        b
    }
}

/// What decoding the next bytes of a header gives, when `header` holds the bytes
/// taken so far and `buf` the bytes offered: the number of bytes taken from
/// `buf` and the header bytes after that; an `UnexpectedEos` error when the
/// stream ends before the header is complete.
pub open spec fn header_step(header: Seq<u8>, buf: Seq<u8>, eos: Eos) -> Result<(nat, Seq<u8>), ErrorKind> {
    let k = min_nat((HEADER_LEN - header.len()) as nat, buf.len());
    let h = header + buf.subrange(0, k as int);
    if h.len() < HEADER_LEN && eos.spec_is_reached() {
        Err(ErrorKind::UnexpectedEos)
    } else {
        Ok((k, h))
    }
}

/// Decoder of the 20-byte header of a message.
#[derive(Debug)]
pub struct MessageHeaderDecoder {
    bytes: Vec<u8>,
}

impl View for MessageHeaderDecoder {
    type V = Seq<u8>;

    closed spec fn view(&self) -> Seq<u8> {
        self.bytes@
    }
}

impl MessageHeaderDecoder {
    /// At most the 20 bytes of a header are held.
    #[verifier::type_invariant]
    closed spec fn fits(self) -> bool {
        self.bytes@.len() <= HEADER_LEN
    }

    /// A decoder that has taken no bytes.
    pub fn new() -> (r: MessageHeaderDecoder)
        ensures
            r@ == Seq::<u8>::empty(),
    {
        MessageHeaderDecoder { bytes: Vec::new() }
    }

    /// Takes bytes of the header from `buf`; returns how many it took.
    pub fn decode(&mut self, buf: &[u8], eos: Eos) -> (r: Result<usize, ErrorKind>)
        ensures
            final(self)@.len() <= HEADER_LEN,
            match header_step(old(self)@, buf@, eos) {
                Ok((k, h)) => r == Ok::<usize, ErrorKind>(k as usize) && final(self)@ == h,
                Err(e) => r == Err::<usize, ErrorKind>(e),
            },
    {
        proof {
            use_type_invariant(&*self);
        }
        let need = HEADER_LEN - self.bytes.len();
        let k = if buf.len() < need {
            buf.len()
        } else {
            need
        };
        let mut bytes: Vec<u8> = Vec::new();
        std::mem::swap(&mut bytes, &mut self.bytes);
        push_bytes(&mut bytes, slice_subrange(buf, 0, k));
        self.bytes = bytes;
        if self.bytes.len() < HEADER_LEN && eos.is_reached() {
            return Err(ErrorKind::UnexpectedEos);
        }
        Ok(k)
    }

    /// The header that the taken bytes make up; the decoder is emptied.
    /// `IncompleteDecoding` when fewer than 20 bytes were taken.
    pub fn finish_decoding(&mut self) -> (r: Result<(Type, u16, TransactionId), ErrorKind>)
        ensures
            old(self)@.len() != HEADER_LEN ==> r == Err::<(Type, u16, TransactionId), ErrorKind>(
                ErrorKind::IncompleteDecoding,
            ) && final(self)@ == old(self)@,
            old(self)@.len() == HEADER_LEN ==> final(self)@ == Seq::<u8>::empty() && match parse_header(old(self)@) {
                Ok((t, l, id)) => r matches Ok((t2, l2, id2)) && t2 == t && l2 == l && id2.spec_bytes() == id,
                Err(e) => r == Err::<(Type, u16, TransactionId), ErrorKind>(e),
            },
    {
        if self.bytes.len() != HEADER_LEN {
            return Err(ErrorKind::IncompleteDecoding);
        }
        let mut bytes: Vec<u8> = Vec::new();
        std::mem::swap(&mut bytes, &mut self.bytes);
        let b = bytes.as_slice();
        let message_type = Type::from_u16(get_u16(b, 0))?;
        let message_len = get_u16(b, 2);
        let magic_cookie = get_u32(b, 4);
        let mut id: [u8; 12] = [0u8; 12];
        let mut i: usize = 0;
        while i < 12
            invariant
                i <= 12,
                b@.len() == HEADER_LEN,
                forall|j: int| 0 <= j < i ==> id@[j] == b@[8 + j],
            decreases 12 - i,
        {
            id[i] = b[8 + i];
            i = i + 1;
        }
        assert(id@ =~= b@.subrange(8, 20));
        let transaction_id = TransactionId::new(id);
        if magic_cookie != crate::types::MAGIC_COOKIE {
            return Err(ErrorKind::InvalidInput);
        }
        Ok((message_type, message_len, transaction_id))
    }

    /// Number of header bytes still needed.
    pub fn requiring_bytes(&self) -> (r: ByteCount)
        ensures
            self@.len() <= HEADER_LEN,
            r == ByteCount::Finite((HEADER_LEN - self@.len()) as u64),
    {
        proof {
            use_type_invariant(self);
        }
        ByteCount::Finite((HEADER_LEN - self.bytes.len()) as u64)
    }

    /// Number of header bytes taken so far, at most 20.
    pub fn taken(&self) -> (r: usize)
        ensures
            r == self@.len(),
            r <= HEADER_LEN,
    {
        proof {
            use_type_invariant(self);
        }
        self.bytes.len()
    }

    /// Whether all 20 bytes of the header were taken.
    pub fn is_idle(&self) -> (r: bool)
        ensures
            r == (self@.len() == HEADER_LEN),
    {
        self.bytes.len() == HEADER_LEN
    }
}

/// The abstract state of a message decoder.
pub ghost struct DecoderView<A> {
    /// Bytes of the header taken so far, while the header is incomplete.
    pub header: Seq<u8>,
    /// The decoded header, once all of its bytes were taken.
    pub peeked: Option<(Type, u16, Seq<u8>)>,
    /// Length of the attribute area that the last header announced.
    pub expected: u64,
    /// Bytes of the attribute area still to be taken.
    pub remaining: u64,
    /// Bytes taken of an attribute that is not yet whole.
    pub region: Seq<u8>,
    /// The attributes of the area decoded so far.
    pub decoded: Seq<AttrView<A>>,
    /// The decoded attributes, once the whole area was taken.
    pub attrs: Option<Seq<AttrView<A>>>,
}

/// The state of a decoder that has taken no bytes.
pub open spec fn initial_decoder<A>() -> DecoderView<A> {
    DecoderView {
        header: Seq::empty(),
        peeked: None,
        expected: 0,
        remaining: 0,
        region: Seq::empty(),
        decoded: Seq::empty(),
        attrs: None,
    }
}

/// Whether a decoder state can occur: a decoded header announces the area
/// being taken, and the attributes are handed over exactly when the header
/// and the whole area were taken.
pub open spec fn decoder_wf<A>(s: DecoderView<A>) -> bool {
    &&& s.header.len() <= HEADER_LEN
    &&& s.remaining <= s.expected < 0x1_0000
    &&& (s.peeked matches Some((_, l, _)) ==> s.header.len() == 0 && l == s.expected)
    &&& (s.attrs is Some <==> (s.peeked is Some && s.remaining == 0))
    &&& (s.attrs is Some ==> s.region.len() == 0 && s.decoded.len() == 0)
    &&& tlv_incomplete(s.region)
}

/// Number of bytes of the current message that the decoder has taken.
pub open spec fn message_taken<A>(s: DecoderView<A>) -> nat {
    if s.peeked is Some {
        (HEADER_LEN + s.expected - s.remaining) as nat
    } else {
        s.header.len()
    }
}

/// The header phase of one call of `decode`: the bytes taken for the header,
/// the state after them, and whether the attribute phase follows in the
/// same call (the header is or becomes complete).  When the header becomes
/// complete the attribute area is set to the length it announces, which
/// fails with `IncompleteDecoding` while an earlier area is half taken.
pub open spec fn header_phase<A>(s: DecoderView<A>, buf: Seq<u8>, eos: Eos) -> Result<(nat, DecoderView<A>, bool), ErrorKind> {
    if s.peeked is Some {
        Ok((0, s, true))
    } else {
        match header_step(s.header, buf, eos) {
            Err(e) => Err(e),
            Ok((k, h)) => if h.len() < HEADER_LEN {
                Ok((k, DecoderView { header: h, ..s }, false))
            } else {
                match parse_header(h) {
                    Err(e) => Err(e),
                    Ok(p) => if s.remaining != s.expected {
                        Err(ErrorKind::IncompleteDecoding)
                    } else {
                        Ok(
                            (
                                k,
                                DecoderView {
                                    header: Seq::empty(),
                                    peeked: Some(p),
                                    expected: p.1 as u64,
                                    remaining: p.1 as u64,
                                    region: Seq::empty(),
                                    decoded: Seq::empty(),
                                    attrs: None,
                                },
                                true,
                            ),
                        )
                    },
                }
            },
        }
    }
}

/// Whether the end of the stream is known to come too early for an attribute
/// area that still needs `required` bytes after the `offered` bytes of this
/// call: when the stream ends right after them and bytes are still needed, or
/// when the bytes offered and the bytes known to follow them together fall
/// short of what is still needed.
pub open spec fn eos_too_early(eos: Eos, offered: nat, required: nat) -> bool {
    match eos.spec_remaining() {
        ByteCount::Finite(r) => (r == 0 && required > 0) || r + offered < required,
        _ => false,
    }
}

/// The attribute phase of one call of `decode`, on the bytes `rest` that the
/// header phase left: at most the remaining bytes of the area are taken; an
/// `UnexpectedEos` error when the end of the stream is known to come too
/// early (`eos_too_early`); each attribute is decoded
/// as soon as all of its bytes are there; once the area is complete an
/// attribute that is not whole is an `UnexpectedEos` error.
pub open spec fn attr_phase<A: Attribute>(s: DecoderView<A>, rest: Seq<u8>, eos: Eos) -> Result<(nat, DecoderView<A>), ErrorKind> {
    if s.attrs is Some {
        Ok((0, s))
    } else {
        let limit = min_nat(rest.len(), s.remaining as nat);
        let required = s.remaining - limit;
        if eos_too_early(eos, rest.len(), required as nat) {
            Err(ErrorKind::UnexpectedEos)
        } else {
            match take_attrs::<A>(s.decoded, s.region + rest.subrange(0, limit as int)) {
                Err(e) => Err(e),
                Ok((d, p)) => if required == 0 {
                    if p.len() != 0 {
                        Err(ErrorKind::UnexpectedEos)
                    } else {
                        Ok(
                            (
                                limit,
                                DecoderView {
                                    remaining: 0,
                                    region: Seq::empty(),
                                    decoded: Seq::empty(),
                                    attrs: Some(d),
                                    ..s
                                },
                            ),
                        )
                    }
                } else {
                    Ok((limit, DecoderView { remaining: required as u64, region: p, decoded: d, ..s }))
                },
            }
        }
    }
}

/// What one call of `decode` with `buf` does to the state `s`: the number of
/// bytes it takes and the state after it, or the error it reports.
pub open spec fn decode_step<A: Attribute>(s: DecoderView<A>, buf: Seq<u8>, eos: Eos) -> Result<(nat, DecoderView<A>), ErrorKind> {
    match header_phase(s, buf, eos) {
        Err(e) => Err(e),
        Ok((k, s1, go_on)) => if !go_on {
            Ok((k, s1))
        } else {
            match attr_phase(s1, buf.subrange(k as int, buf.len() as int), eos) {
                Err(e) => Err(e),
                Ok((l, s2)) => Ok((k + l, s2)),
            }
        },
    }
}

/// What `finish_decoding` gives in the state `s` (before the hooks run after
/// decoding): `IncompleteDecoding` unless both the header and the attribute
/// area are complete, `InvalidInput` when the method's code is not one of `M`.
pub open spec fn finish_result<M: Method, A: Attribute>(s: DecoderView<A>) -> Result<MessageView<M, A>, ErrorKind> {
    match s.peeked {
        None => Err(ErrorKind::IncompleteDecoding),
        Some((t, _, id)) => if s.remaining != 0 {
            Err(ErrorKind::IncompleteDecoding)
        } else {
            match s.attrs {
                None => Err(ErrorKind::IncompleteDecoding),
                Some(v) => match M::spec_from_code(t.method.spec_value()) {
                    None => Err(ErrorKind::InvalidInput),
                    Some(m) => Ok(MessageView { class: t.class, method: m, transaction_id: id, attributes: v }),
                },
            }
        },
    }
}

/// The state that `finish_decoding` leaves: the header and the attributes are
/// handed out (when there were both), and the attribute area is set back to
/// its announced length.
pub open spec fn finish_state<A>(s: DecoderView<A>) -> DecoderView<A> {
    match s.peeked {
        None => s,
        Some(_) => if s.remaining != 0 {
            DecoderView { peeked: None, ..s }
        } else {
            DecoderView { peeked: None, remaining: s.expected, attrs: None, ..s }
        },
    }
}

/// The part of a message decoder's state that follows the header bytes.
#[derive(Debug)]
struct Area<A> {
    peeked: Option<(Type, u16, TransactionId)>,
    expected: u64,
    remaining: u64,
    region: Vec<u8>,
    decoded: Vec<LosslessAttribute<A>>,
    attrs: Option<Vec<LosslessAttribute<A>>>,
}

impl<A> Area<A> {
    /// An area with nothing taken.
    fn empty() -> (r: Area<A>)
        ensures
            r.peeked is None,
            r.expected == 0,
            r.remaining == 0,
            r.region@.len() == 0,
            r.decoded@.len() == 0,
            r.attrs is None,
    {
        Area { peeked: None, expected: 0, remaining: 0, region: Vec::new(), decoded: Vec::new(), attrs: None }
    }
}

/// Decoder of STUN messages.
#[derive(Debug)]
pub struct MessageDecoder<M, A> {
    header: MessageHeaderDecoder,
    area: Area<A>,
    _phantom: PhantomData<M>,
}

/// The abstract form of a decoded header.
pub open spec fn peeked_view(p: Option<(Type, u16, TransactionId)>) -> Option<(Type, u16, Seq<u8>)> {
    match p {
        None => None,
        Some((t, l, id)) => Some((t, l, id.spec_bytes())),
    }
}

/// The abstract form of decoded attributes.
pub open spec fn attrs_view<A>(a: Option<Vec<LosslessAttribute<A>>>) -> Option<Seq<AttrView<A>>> {
    match a {
        None => None,
        Some(v) => Some(v@.map_values(|x: LosslessAttribute<A>| x@)),
    }
}

/// The abstract state of a decoder with the given header bytes and area.
spec fn view_of<A>(header: Seq<u8>, area: Area<A>) -> DecoderView<A> {
    DecoderView {
        header,
        peeked: peeked_view(area.peeked),
        expected: area.expected,
        remaining: area.remaining,
        region: area.region@,
        decoded: area.decoded@.map_values(|x: LosslessAttribute<A>| x@),
        attrs: attrs_view(area.attrs),
    }
}

impl<M: Method, A: Attribute> Default for MessageDecoder<M, A> {
    fn default() -> (r: Self)
        ensures
            r@ == initial_decoder::<A>(),
    {
        Self::new()
    }
}

impl<M, A> View for MessageDecoder<M, A> {
    type V = DecoderView<A>;

    closed spec fn view(&self) -> DecoderView<A> {
        view_of(self.header@, self.area)
    }
}

impl<M, A> MessageDecoder<M, A> {
    /// The state of every decoder can occur.
    #[verifier::type_invariant]
    closed spec fn wf(self) -> bool {
        decoder_wf(self@)
    }
}

impl<M: Method, A: Attribute> MessageDecoder<M, A> {
    /// A decoder that has taken no bytes.
    pub fn new() -> (r: Self)
        ensures
            r@ == initial_decoder::<A>(),
            decoder_wf(r@),
    {
        let r = MessageDecoder { header: MessageHeaderDecoder::new(), area: Area::empty(), _phantom: PhantomData };
        assert(r@.decoded =~= Seq::<AttrView<A>>::empty());
        assert(r@.region =~= Seq::<u8>::empty());
        assert(r@ =~= initial_decoder::<A>());
        r
    }

    /// Takes bytes of a message from `buf`, which is followed in the stream by
    /// what `eos` says; returns how many bytes it took.  It takes nothing more
    /// once a whole message was taken, until `finish_decoding` hands it out.
    /// After an error the state is left well-formed but otherwise unspecified.
    pub fn decode(&mut self, buf: &[u8], eos: Eos) -> (r: Result<usize, ErrorKind>)
        ensures
            decoder_wf(old(self)@),
            decoder_wf(final(self)@),
            match decode_step(old(self)@, buf@, eos) {
                Ok((n, s)) => r == Ok::<usize, ErrorKind>(n as usize) && final(self)@ == s,
                Err(e) => r == Err::<usize, ErrorKind>(e),
            },
    {
        proof {
            use_type_invariant(&*self);
        }
        let ghost s0 = self@;
        let mut area: Area<A> = Area::empty();
        std::mem::swap(&mut area, &mut self.area);
        assert(view_of(self.header@, area) == s0);
        let mut offset: usize = 0;
        if area.peeked.is_none() {
            let mut header = MessageHeaderDecoder::new();
            std::mem::swap(&mut header, &mut self.header);
            let decoded = header.decode(buf, eos);
            let n = match decoded {
                Ok(n) => n,
                Err(e) => {
                    self.header = header;
                    self.area = area;
                    return Err(e);
                },
            };
            offset = n;
            if !header.is_idle() {
                self.header = header;
                self.area = area;
                proof {
                    assert(self@ =~= DecoderView { header: self.header@, ..s0 });
                }
                return Ok(offset);
            }
            let finished = header.finish_decoding();
            self.header = header;
            let h = match finished {
                Ok(h) => h,
                Err(e) => {
                    self.area = area;
                    return Err(e);
                },
            };
            if area.remaining != area.expected {
                self.area = area;
                return Err(ErrorKind::IncompleteDecoding);
            }
            let message_len = h.1;
            area = Area {
                peeked: Some(h),
                expected: message_len as u64,
                remaining: message_len as u64,
                region: Vec::new(),
                decoded: Vec::new(),
                attrs: None,
            };
        }
        let ghost s1 = view_of(self.header@, area);
        proof {
            match header_phase(s0, buf@, eos) {
                Ok((k, sh, go_on)) => {
                    assert(k == offset);
                    assert(go_on);
                    assert(s1.region =~= sh.region);
                    assert(s1.decoded =~= sh.decoded);
                    assert(s1 =~= sh);
                },
                Err(_) => {},
            }
        }
        if area.attrs.is_none() {
            let rest = slice_subrange(buf, offset, buf.len());
            let rest_len: u64 = rest.len() as u64;
            let limit: u64 = if rest_len < area.remaining {
                rest_len
            } else {
                area.remaining
            };
            let required: u64 = area.remaining - limit;
            match eos.remaining_bytes() {
                ByteCount::Finite(r) => {
                    if (r == 0 && required > 0) || (required > rest_len && r < required - rest_len) {
                        self.area = area;
                        return Err(ErrorKind::UnexpectedEos);
                    }
                },
                _ => {},
            }
            let mut pending: Vec<u8> = Vec::new();
            std::mem::swap(&mut pending, &mut area.region);
            push_bytes(&mut pending, slice_subrange(rest, 0, limit as usize));
            let mut decoded: Vec<LosslessAttribute<A>> = Vec::new();
            std::mem::swap(&mut decoded, &mut area.decoded);
            let taken = take_attributes(&mut decoded, pending.as_slice());
            let left = match taken {
                Ok(left) => left,
                Err(e) => {
                    self.area = area;
                    return Err(e);
                },
            };
            proof {
                lemma_take_attrs_leftover::<A>(s1.decoded, pending@);
            }
            if required == 0 {
                if left.len() != 0 {
                    self.area = area;
                    return Err(ErrorKind::UnexpectedEos);
                }
                area = Area {
                    peeked: area.peeked,
                    expected: area.expected,
                    remaining: 0,
                    region: Vec::new(),
                    decoded: Vec::new(),
                    attrs: Some(decoded),
                };
            } else {
                area = Area {
                    peeked: area.peeked,
                    expected: area.expected,
                    remaining: required,
                    region: left,
                    decoded,
                    attrs: None,
                };
            }
            offset = offset + limit as usize;
        }
        self.area = area;
        proof {
            let (k, sh, go_on) = header_phase(s0, buf@, eos).unwrap();
            let (l, s2) = attr_phase(s1, buf@.subrange(k as int, buf@.len() as int), eos).unwrap();
            assert(self@.region =~= s2.region);
            assert(self@.decoded =~= s2.decoded);
            assert(self@ =~= s2);
        }
        Ok(offset)
    }

    /// Hands out the message whose bytes were taken, after the hook of each of
    /// its known attributes ran; see `finish_result` for the errors.
    pub fn finish_decoding(&mut self) -> (r: Result<Message<M, A>, ErrorKind>)
        ensures
            decoder_wf(old(self)@),
            decoder_wf(final(self)@),
            final(self)@ == finish_state(old(self)@),
            match finish_result::<M, A>(old(self)@) {
                Err(e) => r == Err::<Message<M, A>, ErrorKind>(e),
                Ok(m) => match after_decode_all(m) {
                    Ok(m2) => r matches Ok(x) && x@ == m2,
                    Err(e) => r == Err::<Message<M, A>, ErrorKind>(e),
                },
            },
    {
        proof {
            use_type_invariant(&*self);
        }
        let ghost s0 = self@;
        if self.area.peeked.is_none() {
            return Err(ErrorKind::IncompleteDecoding);
        }
        let mut area: Area<A> = Area::empty();
        std::mem::swap(&mut area, &mut self.area);
        if area.remaining != 0 {
            area = Area {
                peeked: None,
                expected: area.expected,
                remaining: area.remaining,
                region: area.region,
                decoded: area.decoded,
                attrs: area.attrs,
            };
            self.area = area;
            proof {
                assert(self@ =~= finish_state(s0));
            }
            return Err(ErrorKind::IncompleteDecoding);
        }
        let (message_type, _len, transaction_id) = area.peeked.unwrap();
        let attrs = area.attrs;
        self.area = Area {
            peeked: None,
            expected: area.expected,
            remaining: area.expected,
            region: area.region,
            decoded: area.decoded,
            attrs: None,
        };
        proof {
            assert(self@ =~= finish_state(s0));
        }
        let attributes = match attrs {
            None => {
                return Err(ErrorKind::IncompleteDecoding);
            },
            Some(a) => a,
        };
        let method = match M::from_u12(message_type.method) {
            None => {
                return Err(ErrorKind::InvalidInput);
            },
            Some(m) => m,
        };
        let message = Message::from_parts(message_type.class, method, transaction_id, attributes);
        run_after_decode(message)
    }

    /// Number of bytes still needed: the rest of the header, or nothing once it
    /// is complete, plus the rest of the attribute area.
    pub fn requiring_bytes(&self) -> (r: ByteCount)
        ensures
            decoder_wf(self@),
            r == ByteCount::Finite(
                ((if self@.peeked is Some {
                    0
                } else {
                    HEADER_LEN - self@.header.len()
                }) + self@.remaining) as u64,
            ),
    {
        proof {
            use_type_invariant(self);
        }
        let h: u64 = if self.area.peeked.is_some() {
            0
        } else {
            (HEADER_LEN - self.header.taken()) as u64
        };
        ByteCount::Finite(h + self.area.remaining)
    }

    /// Whether a whole message was taken and waits for `finish_decoding`:
    /// its header and every byte of the attribute area that the header
    /// announces.
    pub fn is_idle(&self) -> (r: bool)
        ensures
            decoder_wf(self@),
            r == (self@.peeked is Some && self@.attrs is Some),
            r == (self@.peeked is Some && message_taken(self@) == HEADER_LEN + self@.expected),
    {
        proof {
            use_type_invariant(self);
        }
        self.area.peeked.is_some() && self.area.attrs.is_some()
    }
}

} // verus!
