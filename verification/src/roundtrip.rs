//! Laws that relate the encoder and the decoder of whole messages.
use vstd::prelude::*;
use crate::types::{ErrorKind, MAGIC_COOKIE, u12_of, lemma_u12_of};
use crate::message_type::{Type, type_to_u16, class_code};
use crate::types::{ByteCount, Eos};
use crate::wire::{HEADER_LEN, parse_tlvs, lemma_tlvs_decode_encode, lemma_header_decode_encode, Tlv, tlv_bytes, tlvs_bytes, tlv_wf, header_bytes, parse_header, read16, read32, lemma_header_encode_decode, first_tlv, first_tlv_len, padding_len, zeros};
use crate::attribute::{Attribute, AttrView, attr_tlv, attrs_tlvs, attr_of_tlv, decode_attrs, pad_for, lemma_take_attrs_whole, lemma_take_attrs_append};
use crate::message::{MessageView, Method, with_attributes, before_encode_all, after_decode_all};
use crate::encoder::{message_bytes, attrs_bytes, message_header, start_step, EncoderView, encoder_wf, encoder_clear, pending, encode_pieces, encode_count, total_len, lemma_encode_pieces, lemma_pending_parts, TYPE_PART, LEN_PART, COOKIE_PART, ID_PART, ATTRS_PART};
use crate::wire::{be16, be32};
use crate::decoder::{eos_too_early, decoder_wf, finish_state, message_taken, DecoderView, decode_step, finish_result, initial_decoder, header_phase, attr_phase, header_step, min_nat};

verus! {

proof fn lemma_tlv_len_mod4(t: Tlv)
    requires
        tlv_wf(t),
    ensures
        tlv_bytes(t).len() % 4 == 0,
{
}

proof fn lemma_tlvs_len_mod4(ts: Seq<Tlv>)
    requires
        forall|i: int| 0 <= i < ts.len() ==> tlv_wf(#[trigger] ts[i]),
    ensures
        tlvs_bytes(ts).len() % 4 == 0,
    decreases ts.len(),
{
    if ts.len() > 0 {
        assert(tlv_wf(ts[0]));
        lemma_tlv_len_mod4(ts[0]);
        assert forall|i: int| 0 <= i < ts.drop_first().len() implies tlv_wf(#[trigger] ts.drop_first()[i]) by {
            assert(tlv_wf(ts[i + 1]));
        }
        lemma_tlvs_len_mod4(ts.drop_first());
    }
}

/// Every attribute on the wire that `attr_tlv` lays out is well-formed.
proof fn lemma_attr_tlv_wf<A: Attribute>(a: AttrView<A>)
    requires
        attr_tlv(a) is Ok,
    ensures
        tlv_wf(attr_tlv(a).unwrap()),
{
}

/// `attrs_tlvs` lays out each attribute by itself, in order.
proof fn lemma_attrs_tlvs_index<A: Attribute>(s: Seq<AttrView<A>>)
    requires
        attrs_tlvs(s) is Ok,
    ensures
        attrs_tlvs(s).unwrap().len() == s.len(),
        forall|i: int| 0 <= i < s.len() ==> attr_tlv(#[trigger] s[i]) == Ok::<Tlv, ErrorKind>(attrs_tlvs(s).unwrap()[i]),
    decreases s.len(),
{
    if s.len() > 0 {
        lemma_attrs_tlvs_index(s.drop_last());
        let ts = attrs_tlvs(s).unwrap();
        assert forall|i: int| 0 <= i < s.len() implies attr_tlv(#[trigger] s[i]) == Ok::<Tlv, ErrorKind>(ts[i]) by {
            if i < s.len() - 1 {
                assert(s[i] == s.drop_last()[i]);
            }
        }
    }
}

/// The bytes of every message that the encoder lays out follow the fixed
/// layout: the two most significant bits are zero, the magic cookie is in
/// place, the length field counts the bytes after the 20-byte header, and
/// that count is a multiple of four.
pub proof fn lemma_message_layout<M: Method, A: Attribute>(m: MessageView<M, A>)
    requires
        message_bytes(m) is Ok,
        m.method.spec_code() < 4096,
        m.transaction_id.len() == 12,
    ensures
        ({
            let b = message_bytes(m).unwrap();
            &&& b.len() >= HEADER_LEN
            &&& b[0] < 0x40
            &&& read32(b, 4) == MAGIC_COOKIE
            &&& read16(b, 2) == b.len() - HEADER_LEN
            &&& (b.len() - HEADER_LEN) % 4 == 0
            &&& b.subrange(8, 20) == m.transaction_id
        }),
{
    let b = message_bytes(m).unwrap();
    let ts = attrs_tlvs(m.attributes).unwrap();
    let body = tlvs_bytes(ts);
    let t = Type { class: m.class, method: u12_of(m.method.spec_code()) };
    lemma_u12_of(m.method.spec_code());
    lemma_header_encode_decode(t, body.len() as u16, m.transaction_id);
    let h = header_bytes(type_to_u16(t), body.len() as u16, m.transaction_id);
    assert(b == h + body);
    assert(b.subrange(0, 20) =~= h);
    assert(parse_header(h) is Ok);
    assert(read16(h, 0) >> 14u16 == 0);
    assert(b[0] == h[0] && b[1] == h[1] && b[2] == h[2] && b[3] == h[3]);
    assert(b[4] == h[4] && b[5] == h[5] && b[6] == h[6] && b[7] == h[7]);
    assert(b[0] < 0x40) by {
        let x = read16(h, 0);
        assert(x >> 14u16 == 0 ==> x < 0x4000) by (bit_vector);
    }
    lemma_attrs_tlvs_index(m.attributes);
    assert forall|i: int| 0 <= i < ts.len() implies tlv_wf(#[trigger] ts[i]) by {
        lemma_attr_tlv_wf(m.attributes[i]);
    }
    lemma_tlvs_len_mod4(ts);
    assert(b.subrange(8, 20) =~= h.subrange(8, 20));
}

/// An attribute list whose layout agrees, entry by entry, with `ts` is laid out as `ts`.
proof fn lemma_attrs_tlvs_from_index<A: Attribute>(s: Seq<AttrView<A>>, ts: Seq<Tlv>)
    requires
        ts.len() == s.len(),
        forall|i: int| 0 <= i < s.len() ==> attr_tlv(#[trigger] s[i]) == Ok::<Tlv, ErrorKind>(ts[i]),
    ensures
        attrs_tlvs(s) == Ok::<Seq<Tlv>, ErrorKind>(ts),
    decreases s.len(),
{
    if s.len() == 0 {
        assert(ts =~= Seq::<Tlv>::empty());
    } else {
        assert forall|i: int| 0 <= i < s.drop_last().len() implies attr_tlv(#[trigger] s.drop_last()[i]) == Ok::<Tlv, ErrorKind>(ts.drop_last()[i]) by {
            assert(s.drop_last()[i] == s[i]);
        }
        lemma_attrs_tlvs_from_index(s.drop_last(), ts.drop_last());
        assert(attr_tlv(s[s.len() - 1]) == Ok::<Tlv, ErrorKind>(ts[ts.len() - 1]));
        assert(ts.drop_last().push(ts.last()) =~= ts);
    }
}

/// An attribute as the decoder gives it back after the encoder laid it out:
/// the same, with the padding that was written recorded.
pub open spec fn as_decoded<A: Attribute>(a: AttrView<A>) -> AttrView<A> {
    match attr_tlv(a) {
        Err(_) => a,
        Ok(t) => match a {
            AttrView::Known { inner, .. } => AttrView::Known { inner, padding: Some(t.padding) },
            AttrView::Unknown { attr_type, value, .. } => AttrView::Unknown {
                attr_type,
                value,
                padding: Some(t.padding),
            },
        },
    }
}

/// Whether each attribute of `s` is read back as itself from its value: a known
/// attribute decodes from the value it encodes to, and the type of a raw one is
/// not a type that `A` knows.
pub open spec fn attrs_read_back<A: Attribute>(s: Seq<AttrView<A>>) -> bool {
    forall|i: int|
        0 <= i < s.len() ==> match #[trigger] s[i] {
            AttrView::Known { inner, .. } => (inner.spec_encode_value() matches Ok(v)
                ==> A::spec_decode_value(inner.spec_type(), v) == Some(Ok::<A, ErrorKind>(inner))),
            AttrView::Unknown { attr_type, value, .. } => A::spec_decode_value(attr_type, value) is None,
        }
}

/// Decoding the attribute area that the encoder lays out for `s` gives back `s`,
/// each attribute with the padding that was written.
proof fn lemma_decode_encoded_attrs<A: Attribute>(s: Seq<AttrView<A>>)
    requires
        attrs_tlvs(s) is Ok,
        attrs_read_back(s),
    ensures
        decode_attrs::<A>(tlvs_bytes(attrs_tlvs(s).unwrap())) == Ok::<Seq<AttrView<A>>, ErrorKind>(
            s.map_values(|a: AttrView<A>| as_decoded(a)),
        ),
    decreases s.len(),
{
    let ts = attrs_tlvs(s).unwrap();
    lemma_attrs_tlvs_index(s);
    if s.len() == 0 {
        assert(tlvs_bytes(ts) =~= Seq::<u8>::empty());
        assert(s.map_values(|a: AttrView<A>| as_decoded(a)) =~= Seq::<AttrView<A>>::empty());
    } else {
        let rest = s.drop_first();
        assert forall|i: int| 0 <= i < rest.len() implies attr_tlv(#[trigger] rest[i]) == Ok::<Tlv, ErrorKind>(ts.drop_first()[i]) by {
            assert(rest[i] == s[i + 1]);
        }
        lemma_attrs_tlvs_from_index(rest, ts.drop_first());
        assert forall|i: int| 0 <= i < rest.len() implies match #[trigger] rest[i] {
            AttrView::Known { inner, .. } => (inner.spec_encode_value() matches Ok(v)
                ==> A::spec_decode_value(inner.spec_type(), v) == Some(Ok::<A, ErrorKind>(inner))),
            AttrView::Unknown { attr_type, value, .. } => A::spec_decode_value(attr_type, value) is None,
        } by {
            assert(rest[i] == s[i + 1]);
        }
        lemma_decode_encoded_attrs(rest);
        let t0 = ts[0];
        lemma_attr_tlv_wf(s[0]);
        let tail = tlvs_bytes(ts.drop_first());
        crate::wire::lemma_first_tlv_of_bytes(t0, tail);
        let b = tlvs_bytes(ts);
        assert(b == tlv_bytes(t0) + tail);
        assert(match s[0] {
            AttrView::Known { inner, .. } => (inner.spec_encode_value() matches Ok(v)
                ==> A::spec_decode_value(inner.spec_type(), v) == Some(Ok::<A, ErrorKind>(inner))),
            AttrView::Unknown { attr_type, value, .. } => A::spec_decode_value(attr_type, value) is None,
        });
        assert(attr_of_tlv::<A>(t0) == Ok::<AttrView<A>, ErrorKind>(as_decoded(s[0])));
        assert(s.map_values(|a: AttrView<A>| as_decoded(a)) =~= seq![as_decoded(s[0])] + rest.map_values(|a: AttrView<A>| as_decoded(a)));
    }
}

/// Decoding what the encoder lays out for a message gives the message back:
/// a decoder that has taken nothing takes all of the bytes in one call,
/// whatever follows them, and hands out the message with the padding that was
/// written recorded in each attribute (before the hooks run after decoding).
pub proof fn lemma_decode_encoded<M: Method, A: Attribute>(m: MessageView<M, A>, eos: Eos)
    requires
        message_bytes(m) is Ok,
        m.method.spec_code() < 4096,
        M::spec_from_code(m.method.spec_code()) == Some(m.method),
        m.transaction_id.len() == 12,
        attrs_read_back(m.attributes),
    ensures
        ({
            let b = message_bytes(m).unwrap();
            &&& decode_step::<A>(initial_decoder::<A>(), b, eos) matches Ok((n, s)) && n == b.len()
                && s.peeked is Some && s.attrs is Some && finish_result::<M, A>(s) == Ok::<
                MessageView<M, A>,
                ErrorKind,
            >(with_attributes(m, m.attributes.map_values(|a: AttrView<A>| as_decoded(a))))
        }),
{
    let b = message_bytes(m).unwrap();
    let ts = attrs_tlvs(m.attributes).unwrap();
    let body = tlvs_bytes(ts);
    let t = Type { class: m.class, method: u12_of(m.method.spec_code()) };
    lemma_u12_of(m.method.spec_code());
    lemma_header_encode_decode(t, body.len() as u16, m.transaction_id);
    let h = header_bytes(type_to_u16(t), body.len() as u16, m.transaction_id);
    assert(b == h + body);
    let s0 = initial_decoder::<A>();
    assert(b.subrange(0, 20) =~= h);
    assert(header_step(s0.header, b, eos) == Ok::<(nat, Seq<u8>), ErrorKind>((20, h))) by {
        assert(s0.header + b.subrange(0, 20) =~= h);
    }
    let (k, s1, go_on) = header_phase(s0, b, eos).unwrap();
    assert(k == 20 && go_on);
    let rest = b.subrange(20, b.len() as int);
    assert(rest =~= body);
    assert(s1.remaining == body.len());
    lemma_decode_encoded_attrs(m.attributes);
    assert(s1.region + rest.subrange(0, body.len() as int) =~= body);
    lemma_take_attrs_whole::<A>(s1.decoded, body);
    let v = m.attributes.map_values(|a: AttrView<A>| as_decoded(a));
    assert(s1.decoded + v =~= v);
    let (l, s2) = attr_phase(s1, rest, eos).unwrap();
    assert(l == body.len());
}

/// Whether `A` writes back what it reads: an attribute decoded from a value of
/// some type has that type and encodes to that value.
pub open spec fn attrs_write_back<A: Attribute>() -> bool {
    forall|t: u16, v: Seq<u8>|
        #[trigger] A::spec_decode_value(t, v) matches Some(Ok(a)) ==> a.spec_type() == t
            && a.spec_encode_value() == Ok::<Seq<u8>, ErrorKind>(v)
}

/// Whether the method that `M` finds for a code has that code.
pub open spec fn method_codes_agree<M: Method>() -> bool {
    forall|c: u16| #[trigger] M::spec_from_code(c) matches Some(m) ==> m.spec_code() == c
}

/// An attribute decoded from its wire form is laid out as that form again.
proof fn lemma_attr_of_tlv_back<A: Attribute>(t: Tlv)
    requires
        attrs_write_back::<A>(),
        tlv_wf(t),
        attr_of_tlv::<A>(t) is Ok,
    ensures
        attr_tlv(attr_of_tlv::<A>(t).unwrap()) == Ok::<Tlv, ErrorKind>(t),
{
    match A::spec_decode_value(t.attr_type, t.value) {
        Some(Ok(a)) => {
            assert(a.spec_type() == t.attr_type);
        },
        _ => {},
    }
}

/// An attribute area that decodes splits into the wire forms of the decoded
/// attributes, in order.
proof fn lemma_decoded_attrs_tlvs<A: Attribute>(r: Seq<u8>)
    requires
        attrs_write_back::<A>(),
        decode_attrs::<A>(r) is Ok,
    ensures
        parse_tlvs(r) is Ok,
        parse_tlvs(r).unwrap().len() == decode_attrs::<A>(r).unwrap().len(),
        forall|i: int|
            0 <= i < decode_attrs::<A>(r).unwrap().len() ==> attr_tlv(#[trigger] decode_attrs::<A>(r).unwrap()[i])
                == Ok::<Tlv, ErrorKind>(parse_tlvs(r).unwrap()[i]),
    decreases r.len(),
{
    if r.len() > 0 {
        let n = first_tlv_len(r);
        let rest = r.subrange(n, r.len() as int);
        lemma_decoded_attrs_tlvs::<A>(rest);
        let t = first_tlv(r);
        assert(tlv_wf(t));
        lemma_attr_of_tlv_back::<A>(t);
        let v = decode_attrs::<A>(r).unwrap();
        let ts = parse_tlvs(r).unwrap();
        assert forall|i: int| 0 <= i < v.len() implies attr_tlv(#[trigger] v[i]) == Ok::<Tlv, ErrorKind>(ts[i]) by {
            if i > 0 {
                assert(v[i] == decode_attrs::<A>(rest).unwrap()[i - 1]);
                assert(ts[i] == parse_tlvs(rest).unwrap()[i - 1]);
            }
        }
    }
}

/// Encoding what the decoder hands out gives back the bytes it took: when a
/// decoder that has taken nothing takes all of `b` in one call and can hand out
/// a message, the encoder lays out that message (before the hooks run) as `b`.
pub proof fn lemma_encode_decoded<M: Method, A: Attribute>(b: Seq<u8>, eos: Eos)
    requires
        attrs_write_back::<A>(),
        method_codes_agree::<M>(),
        decode_step::<A>(initial_decoder::<A>(), b, eos) is Ok,
        decode_step::<A>(initial_decoder::<A>(), b, eos).unwrap().0 == b.len(),
        finish_result::<M, A>(decode_step::<A>(initial_decoder::<A>(), b, eos).unwrap().1) is Ok,
    ensures
        message_bytes(finish_result::<M, A>(decode_step::<A>(initial_decoder::<A>(), b, eos).unwrap().1).unwrap())
            == Ok::<Seq<u8>, ErrorKind>(b),
{
    let s0 = initial_decoder::<A>();
    let (n, s) = decode_step::<A>(s0, b, eos).unwrap();
    let m = finish_result::<M, A>(s).unwrap();
    let (k, s1, go_on) = header_phase(s0, b, eos).unwrap();
    assert(go_on);
    let h = b.subrange(0, 20);
    assert(s0.header + b.subrange(0, k as int) =~= b.subrange(0, k as int));
    assert(k == 20);
    let (t, len, id) = parse_header(h).unwrap();
    let rest = b.subrange(20, b.len() as int);
    let (l, s2) = attr_phase(s1, rest, eos).unwrap();
    assert(s2 == s);
    assert(l == len);
    assert(rest.subrange(0, l as int) =~= rest);
    assert(s1.region + rest.subrange(0, l as int) =~= rest);
    lemma_take_attrs_whole::<A>(s1.decoded, rest);
    let v = decode_attrs::<A>(rest).unwrap();
    assert(s1.decoded + v =~= v);
    assert(m.attributes == v);
    lemma_decoded_attrs_tlvs::<A>(rest);
    let ts = parse_tlvs(rest).unwrap();
    lemma_attrs_tlvs_from_index(v, ts);
    lemma_tlvs_decode_encode(rest);
    assert(attrs_bytes(m) == Ok::<Seq<u8>, ErrorKind>(rest));
    lemma_header_decode_encode(h);
    assert(M::spec_from_code(t.method.spec_value()) == Some(m.method));
    assert(m.method.spec_code() == t.method.spec_value());
    lemma_u12_of(t.method.spec_value());
    assert(type_to_u16(Type { class: m.class, method: u12_of(m.method.spec_code()) }) == type_to_u16(t));
    assert(message_header(m, rest.len()) == h);
    assert(h + rest =~= b);
}

/// The attribute phase split in two: taking `r1` and then `r2` does what
/// taking `r1 + r2` at once does.
proof fn lemma_attr_phase_split<A: Attribute>(s: DecoderView<A>, r1: Seq<u8>, r2: Seq<u8>, eos1: Eos, eos: Eos)
    requires
        s.attrs is None,
        !(eos.spec_remaining() matches ByteCount::Finite(r) && r > 0),
        attr_phase(s, r1, eos1) is Ok,
        attr_phase(s, r1, eos1).unwrap().0 == r1.len(),
    ensures
        attr_phase(s, r1 + r2, eos) == match attr_phase(attr_phase(s, r1, eos1).unwrap().1, r2, eos) {
            Ok((n2, s2)) => Ok::<(nat, DecoderView<A>), ErrorKind>((r1.len() + n2, s2)),
            Err(e) => Err::<(nat, DecoderView<A>), ErrorKind>(e),
        },
{
    let (n1, s1) = attr_phase(s, r1, eos1).unwrap();
    let r = r1 + r2;
    assert(r.subrange(0, r1.len() as int) =~= r1);
    assert(r1.subrange(0, r1.len() as int) =~= r1);
    if s.remaining - r1.len() == 0 {
        assert(s.region + r.subrange(0, r1.len() as int) =~= s.region + r1.subrange(0, r1.len() as int));
    } else {
        let limit2 = min_nat(r2.len(), (s.remaining - r1.len()) as nat);
        lemma_take_attrs_append::<A>(s.decoded, s.region + r1, r2.subrange(0, limit2 as int));
        assert(s.region + r.subrange(0, (r1.len() + limit2) as int) =~= (s.region + r1) + r2.subrange(0, limit2 as int));
    }
}

/// Decoding in two calls while the header is still short after the first.
proof fn lemma_two_calls_short_header<A: Attribute>(s: DecoderView<A>, b1: Seq<u8>, b2: Seq<u8>, eos1: Eos, eos: Eos)
    requires
        s.peeked is None,
        s.attrs is None,
        s.header.len() + b1.len() < HEADER_LEN,
        decode_step(s, b1, eos1) is Ok,
    ensures
        decode_step(s, b1 + b2, eos) == match decode_step(decode_step(s, b1, eos1).unwrap().1, b2, eos) {
            Ok((n2, s2)) => Ok::<(nat, DecoderView<A>), ErrorKind>((b1.len() + n2, s2)),
            Err(e) => Err::<(nat, DecoderView<A>), ErrorKind>(e),
        },
{
    let b = b1 + b2;
    let hl = s.header.len();
    let k1 = min_nat((HEADER_LEN - hl) as nat, b1.len());
    assert(k1 == b1.len());
    assert(b1.subrange(0, k1 as int) =~= b1);
    let h1 = s.header + b1;
    let k2 = min_nat((HEADER_LEN - h1.len()) as nat, b2.len());
    let k = min_nat((HEADER_LEN - hl) as nat, b.len());
    assert(k == k1 + k2);
    assert(s.header + b.subrange(0, k as int) =~= h1 + b2.subrange(0, k2 as int));
    assert(b.subrange(k as int, b.len() as int) =~= b2.subrange(k2 as int, b2.len() as int));
}

/// Decoding in two calls when the first completes the header.
#[verifier::spinoff_prover]
#[verifier::rlimit(50)]
proof fn lemma_two_calls_full_header<A: Attribute>(s: DecoderView<A>, b1: Seq<u8>, b2: Seq<u8>, eos1: Eos, eos: Eos)
    requires
        s.peeked is None,
        s.attrs is None,
        s.header.len() <= HEADER_LEN,
        s.header.len() + b1.len() >= HEADER_LEN,
        !(eos.spec_remaining() matches ByteCount::Finite(r) && r > 0),
        decode_step(s, b1, eos1) is Ok,
        decode_step(s, b1, eos1).unwrap().0 == b1.len(),
    ensures
        decode_step(s, b1 + b2, eos) == match decode_step(decode_step(s, b1, eos1).unwrap().1, b2, eos) {
            Ok((n2, s2)) => Ok::<(nat, DecoderView<A>), ErrorKind>((b1.len() + n2, s2)),
            Err(e) => Err::<(nat, DecoderView<A>), ErrorKind>(e),
        },
{
    let b = b1 + b2;
    let hl = s.header.len();
    let k1 = min_nat((HEADER_LEN - hl) as nat, b1.len());
    let k = min_nat((HEADER_LEN - hl) as nat, b.len());
    assert(k == k1);
    assert(b.subrange(0, k as int) =~= b1.subrange(0, k1 as int));
    let (kk, sh, go_on) = header_phase(s, b1, eos1).unwrap();
    assert(header_phase(s, b, eos) == Ok::<(nat, DecoderView<A>, bool), ErrorKind>((kk, sh, go_on)));
    let rest1 = b1.subrange(k1 as int, b1.len() as int);
    assert(b.subrange(k as int, b.len() as int) =~= rest1 + b2);
    lemma_attr_phase_split(sh, rest1, b2, eos1, eos);
    assert(b2.subrange(0, b2.len() as int) =~= b2);
}

/// Decoding in two calls does what decoding in one call does: when a call
/// takes all of `b1`, a following call with `b2` leaves the decoder as one
/// call with `b1 + b2` would, and reports the same error, unless the end of the
/// stream is known to lie a given number of bytes after `b2` (then the check of
/// the end counts the bytes offered in each call, which differ).
pub proof fn lemma_decode_in_two_calls<A: Attribute>(s: DecoderView<A>, b1: Seq<u8>, b2: Seq<u8>, eos1: Eos, eos: Eos)
    requires
        s.header.len() <= HEADER_LEN,
        s.attrs is None,
        !(eos.spec_remaining() matches ByteCount::Finite(r) && r > 0),
        decode_step(s, b1, eos1) is Ok,
        decode_step(s, b1, eos1).unwrap().0 == b1.len(),
    ensures
        decode_step(s, b1 + b2, eos) == match decode_step(decode_step(s, b1, eos1).unwrap().1, b2, eos) {
            Ok((n2, s2)) => Ok::<(nat, DecoderView<A>), ErrorKind>((b1.len() + n2, s2)),
            Err(e) => Err::<(nat, DecoderView<A>), ErrorKind>(e),
        },
{
    if s.peeked is Some {
        let b = b1 + b2;
        assert(b.subrange(0, b.len() as int) =~= b);
        assert(b1.subrange(0, b1.len() as int) =~= b1);
        assert(b2.subrange(0, b2.len() as int) =~= b2);
        lemma_attr_phase_split(s, b1, b2, eos1, eos);
    } else if s.header.len() + b1.len() < HEADER_LEN {
        lemma_two_calls_short_header(s, b1, b2, eos1, eos);
    } else {
        lemma_two_calls_full_header(s, b1, b2, eos1, eos);
    }
}

/// A decode call that takes fewer bytes than it is offered leaves a whole
/// message in the decoder; every call keeps the header within 20 bytes.
proof fn lemma_decode_step_facts<A: Attribute>(s: DecoderView<A>, b: Seq<u8>, eos: Eos)
    requires
        s.header.len() <= HEADER_LEN,
        s.attrs is None,
        decode_step(s, b, eos) is Ok,
    ensures
        decode_step(s, b, eos).unwrap().1.header.len() <= HEADER_LEN,
        decode_step(s, b, eos).unwrap().0 < b.len() ==> decode_step(s, b, eos).unwrap().1.attrs is Some,
        decode_step(s, b, eos).unwrap().1.attrs is Some ==> decode_step(s, b, eos).unwrap().1.peeked is Some,
{
    let (k, s1, go_on) = header_phase(s, b, eos).unwrap();
    if s.peeked is None {
        let hl = s.header.len();
        let h = s.header + b.subrange(0, min_nat((HEADER_LEN - hl) as nat, b.len()) as int);
        assert(h.len() <= HEADER_LEN);
    }
}

/// A call that errs on the first bytes of a stream, where nothing is known of
/// the end, errs on the whole stream too.
#[verifier::spinoff_prover]
#[verifier::rlimit(100)]
proof fn lemma_prefix_error<A: Attribute>(s: DecoderView<A>, b1: Seq<u8>, b2: Seq<u8>, mid: Eos, eos: Eos)
    requires
        s.header.len() <= HEADER_LEN,
        s.attrs is None,
        !(mid.spec_remaining() is Finite),
        decode_step(s, b1, mid) is Err,
    ensures
        decode_step(s, b1 + b2, eos) is Err,
{
    let b = b1 + b2;
    let hl = s.header.len();
    let k1 = if s.peeked is Some { 0 } else { min_nat((HEADER_LEN - hl) as nat, b1.len()) };
    if s.peeked is None {
        let k = min_nat((HEADER_LEN - hl) as nat, b.len());
        let h1 = s.header + b1.subrange(0, k1 as int);
        if h1.len() < HEADER_LEN {
            assert(header_phase(s, b1, mid) is Ok);
            return;
        }
        assert(k == k1);
        assert(b.subrange(0, k as int) =~= b1.subrange(0, k1 as int));
    }
    if header_phase(s, b1, mid) is Err {
        return;
    }
    let (kk, sh, go_on) = header_phase(s, b1, mid).unwrap();
    assert(kk == k1);
    let rest1 = b1.subrange(k1 as int, b1.len() as int);
    let rest = b.subrange(k1 as int, b.len() as int);
    assert(rest =~= rest1 + b2);
    assert(header_phase(s, b, eos) == Ok::<(nat, DecoderView<A>, bool), ErrorKind>((k1, sh, true)));
    let limit1 = min_nat(rest1.len(), sh.remaining as nat);
    let limit = min_nat(rest.len(), sh.remaining as nat);
    if !eos_too_early(eos, rest.len(), (sh.remaining - limit) as nat) {
        if sh.remaining - limit1 == 0 {
            assert(limit == limit1);
            assert(rest.subrange(0, limit as int) =~= rest1.subrange(0, limit1 as int));
        } else {
            assert(limit1 == rest1.len());
            assert(rest.subrange(0, limit as int) =~= rest1.subrange(0, limit1 as int) + b2.subrange(0, limit - limit1));
            lemma_take_attrs_append::<A>(sh.decoded, sh.region + rest1.subrange(0, limit1 as int), b2.subrange(0, limit - limit1));
            assert(sh.region + rest.subrange(0, limit as int) =~= (sh.region + rest1.subrange(0, limit1 as int)) + b2.subrange(0, limit - limit1));
        }
    }
}

/// A call that leaves a whole message in the decoder does the same, taking
/// the same bytes, when more bytes follow in its buffer.
#[verifier::spinoff_prover]
#[verifier::rlimit(100)]
proof fn lemma_stop_early<A: Attribute>(s: DecoderView<A>, b1: Seq<u8>, b2: Seq<u8>, mid: Eos, eos: Eos)
    requires
        s.header.len() <= HEADER_LEN,
        s.attrs is None,
        decode_step(s, b1, mid) is Ok,
        decode_step(s, b1, mid).unwrap().1.attrs is Some,
    ensures
        decode_step(s, b1 + b2, eos) == decode_step(s, b1, mid),
{
    let b = b1 + b2;
    let hl = s.header.len();
    let k1 = if s.peeked is Some { 0 } else { min_nat((HEADER_LEN - hl) as nat, b1.len()) };
    if s.peeked is None {
        let k = min_nat((HEADER_LEN - hl) as nat, b.len());
        let h1 = s.header + b1.subrange(0, k1 as int);
        assert(h1.len() >= HEADER_LEN);
        assert(k == k1);
        assert(b.subrange(0, k as int) =~= b1.subrange(0, k1 as int));
    }
    let (kk, sh, go_on) = header_phase(s, b1, mid).unwrap();
    let rest1 = b1.subrange(k1 as int, b1.len() as int);
    let rest = b.subrange(k1 as int, b.len() as int);
    assert(rest =~= rest1 + b2);
    assert(header_phase(s, b, eos) == Ok::<(nat, DecoderView<A>, bool), ErrorKind>((k1, sh, true)));
    let limit1 = min_nat(rest1.len(), sh.remaining as nat);
    assert(limit1 == sh.remaining);
    assert(rest.subrange(0, limit1 as int) =~= rest1.subrange(0, limit1 as int));
}

/// Offering more bytes to a decoder that holds a whole message changes nothing.
proof fn lemma_feed_complete<A: Attribute>(s: DecoderView<A>, carry: Seq<u8>, chunks: Seq<Seq<u8>>, mid: Eos, last: Eos)
    requires
        s.peeked is Some,
        s.attrs is Some,
    ensures
        feed(s, carry, chunks, mid, last) == Ok::<(nat, DecoderView<A>), ErrorKind>((0, s)),
    decreases chunks.len(),
{
    if chunks.len() > 0 {
        let buf = carry + chunks[0];
        let eos = if chunks.len() == 1 { last } else { mid };
        assert(header_phase(s, buf, eos) == Ok::<(nat, DecoderView<A>, bool), ErrorKind>((0, s, true)));
        assert(buf.subrange(0, buf.len() as int) =~= buf);
        assert(attr_phase(s, buf, eos) == Ok::<(nat, DecoderView<A>), ErrorKind>((0, s)));
        assert(decode_step(s, buf, eos) == Ok::<(nat, DecoderView<A>), ErrorKind>((0, s)));
        lemma_feed_complete(s, buf, chunks.drop_first(), mid, last);
    }
}

/// The bytes of `chunks`, one after the other.
pub open spec fn concat_chunks(chunks: Seq<Seq<u8>>) -> Seq<u8>
    decreases chunks.len(),
{
    if chunks.len() == 0 {
        Seq::empty()
    } else {
        chunks[0] + concat_chunks(chunks.drop_first())
    }
}

/// What successive calls of `decode` do when each is offered the bytes the
/// calls before it left, followed by the next chunk: the calls before the
/// last are told `mid` of the end of the stream, the last is told `last`.
/// Gives the number of bytes taken in all and the state after the calls, or
/// the first error.
pub open spec fn feed<A: Attribute>(s: DecoderView<A>, carry: Seq<u8>, chunks: Seq<Seq<u8>>, mid: Eos, last: Eos) -> Result<(nat, DecoderView<A>), ErrorKind>
    decreases chunks.len(),
{
    if chunks.len() == 0 {
        Ok((0, s))
    } else {
        let buf = carry + chunks[0];
        let eos = if chunks.len() == 1 {
            last
        } else {
            mid
        };
        match decode_step(s, buf, eos) {
            Err(e) => Err(e),
            Ok((n, s1)) => match feed(s1, buf.subrange(n as int, buf.len() as int), chunks.drop_first(), mid, last) {
                Err(e) => Err(e),
                Ok((m, s2)) => Ok((n + m, s2)),
            },
        }
    }
}

/// The last chunk: one call with the bytes left and the chunk.
proof fn lemma_feed_last<A: Attribute>(s: DecoderView<A>, carry: Seq<u8>, chunks: Seq<Seq<u8>>, mid: Eos, last: Eos)
    requires
        chunks.len() == 1,
    ensures
        feed(s, carry, chunks, mid, last) == decode_step(s, carry + concat_chunks(chunks), last),
{
    let buf = carry + chunks[0];
    let rest = chunks.drop_first();
    assert(concat_chunks(rest) =~= Seq::<u8>::empty());
    assert(carry + concat_chunks(chunks) =~= buf);
    match decode_step(s, buf, last) {
        Ok((n, s1)) => {
            assert(feed(s1, buf.subrange(n as int, buf.len() as int), rest, mid, last) == Ok::<(nat, DecoderView<A>), ErrorKind>((0, s1)));
        },
        Err(_) => {},
    }
}

/// A call before the last that fails: the calls fail, and so does one call
/// with all the bytes.
#[verifier::spinoff_prover]
proof fn lemma_feed_early_error<A: Attribute>(s: DecoderView<A>, carry: Seq<u8>, chunks: Seq<Seq<u8>>, mid: Eos, last: Eos)
    requires
        s.header.len() <= HEADER_LEN,
        s.attrs is None,
        chunks.len() > 1,
        !(mid.spec_remaining() is Finite),
        decode_step(s, carry + chunks[0], mid) is Err,
    ensures
        feed(s, carry, chunks, mid, last) is Err,
        decode_step(s, carry + concat_chunks(chunks), last) is Err,
{
    let buf = carry + chunks[0];
    let rest = chunks.drop_first();
    assert(carry + concat_chunks(chunks) =~= buf + concat_chunks(rest));
    lemma_prefix_error(s, buf, concat_chunks(rest), mid, last);
}

/// A call before the last that leaves a whole message in the decoder: the
/// later calls change nothing, and one call with all the bytes does the same.
#[verifier::spinoff_prover]
proof fn lemma_feed_early_message<A: Attribute>(s: DecoderView<A>, carry: Seq<u8>, chunks: Seq<Seq<u8>>, mid: Eos, last: Eos)
    requires
        s.header.len() <= HEADER_LEN,
        s.attrs is None,
        chunks.len() > 1,
        decode_step(s, carry + chunks[0], mid) is Ok,
        decode_step(s, carry + chunks[0], mid).unwrap().1.attrs is Some,
    ensures
        feed(s, carry, chunks, mid, last) == decode_step(s, carry + concat_chunks(chunks), last),
        feed(s, carry, chunks, mid, last) is Ok,
{
    let buf = carry + chunks[0];
    let rest = chunks.drop_first();
    let (n, s1) = decode_step(s, buf, mid).unwrap();
    assert(carry + concat_chunks(chunks) =~= buf + concat_chunks(rest));
    lemma_decode_step_facts(s, buf, mid);
    lemma_stop_early(s, buf, concat_chunks(rest), mid, last);
    lemma_feed_complete(s1, buf.subrange(n as int, buf.len() as int), rest, mid, last);
}

/// A call before the last that takes all of its bytes and leaves no whole
/// message: the later calls go on from the state it leaves.
#[verifier::spinoff_prover]
proof fn lemma_feed_early_partial<A: Attribute>(s: DecoderView<A>, carry: Seq<u8>, chunks: Seq<Seq<u8>>, mid: Eos, last: Eos)
    requires
        s.header.len() <= HEADER_LEN,
        s.attrs is None,
        chunks.len() > 1,
        !(last.spec_remaining() matches ByteCount::Finite(r) && r > 0),
        decode_step(s, carry + chunks[0], mid) is Ok,
        decode_step(s, carry + chunks[0], mid).unwrap().1.attrs is None,
    ensures
        ({
            let s1 = decode_step(s, carry + chunks[0], mid).unwrap().1;
            &&& s1.header.len() <= HEADER_LEN
            &&& feed(s, carry, chunks, mid, last) == match feed(s1, Seq::empty(), chunks.drop_first(), mid, last) {
                Ok((m, s2)) => Ok::<(nat, DecoderView<A>), ErrorKind>(((carry + chunks[0]).len() + m, s2)),
                Err(e) => Err::<(nat, DecoderView<A>), ErrorKind>(e),
            }
            &&& decode_step(s, carry + concat_chunks(chunks), last) == match decode_step(s1, Seq::empty() + concat_chunks(chunks.drop_first()), last) {
                Ok((m, s2)) => Ok::<(nat, DecoderView<A>), ErrorKind>(((carry + chunks[0]).len() + m, s2)),
                Err(e) => Err::<(nat, DecoderView<A>), ErrorKind>(e),
            }
        }),
{
    let buf = carry + chunks[0];
    let rest = chunks.drop_first();
    let (n, s1) = decode_step(s, buf, mid).unwrap();
    lemma_decode_step_facts(s, buf, mid);
    assert(n == buf.len());
    assert(buf.subrange(n as int, buf.len() as int) =~= Seq::<u8>::empty());
    assert(carry + concat_chunks(chunks) =~= buf + concat_chunks(rest));
    assert(Seq::<u8>::empty() + concat_chunks(rest) =~= concat_chunks(rest));
    lemma_decode_in_two_calls(s, buf, concat_chunks(rest), mid, last);
}

proof fn lemma_feed_carry<A: Attribute>(s: DecoderView<A>, carry: Seq<u8>, chunks: Seq<Seq<u8>>, mid: Eos, last: Eos)
    requires
        s.header.len() <= HEADER_LEN,
        s.attrs is None,
        chunks.len() > 0,
        !(mid.spec_remaining() is Finite),
        !(last.spec_remaining() matches ByteCount::Finite(r) && r > 0),
    ensures
        (feed(s, carry, chunks, mid, last) is Ok) == (decode_step(s, carry + concat_chunks(chunks), last) is Ok),
        feed(s, carry, chunks, mid, last) is Ok ==> feed(s, carry, chunks, mid, last) == decode_step(s, carry + concat_chunks(chunks), last),
    decreases chunks.len(),
{
    let buf = carry + chunks[0];
    if chunks.len() == 1 {
        lemma_feed_last(s, carry, chunks, mid, last);
    } else {
        let first = decode_step(s, buf, mid);
        if first is Err {
            lemma_feed_early_error(s, carry, chunks, mid, last);
        } else if first.unwrap().1.attrs is Some {
            lemma_feed_early_message(s, carry, chunks, mid, last);
        } else {
            lemma_feed_early_partial(s, carry, chunks, mid, last);
            lemma_feed_carry(first.unwrap().1, Seq::empty(), chunks.drop_first(), mid, last);
        }
    }
}

/// Decoding a stream in chunks does what decoding it in one call does: the
/// calls that are offered the chunks one after the other (each with the bytes
/// that the calls before it left, the calls before the last told of no number
/// of bytes that follow) take as many bytes in all as one call with all the
/// bytes, and leave the decoder in the same state; they fail exactly when that
/// call fails.  This holds unless the last call is told that a given number of
/// bytes, one or more, follow its buffer: then the check of the end counts the
/// bytes offered to each call, which differ.
pub proof fn lemma_decode_in_chunks<A: Attribute>(s: DecoderView<A>, chunks: Seq<Seq<u8>>, mid: Eos, last: Eos)
    requires
        decoder_wf(s),
        chunks.len() > 0,
        !(mid.spec_remaining() is Finite),
        !(last.spec_remaining() matches ByteCount::Finite(r) && r > 0),
    ensures
        (feed(s, Seq::empty(), chunks, mid, last) is Ok) == (decode_step(s, concat_chunks(chunks), last) is Ok),
        feed(s, Seq::empty(), chunks, mid, last) is Ok ==> feed(s, Seq::empty(), chunks, mid, last) == decode_step(
            s,
            concat_chunks(chunks),
            last,
        ),
{
    let whole = concat_chunks(chunks);
    assert(Seq::<u8>::empty() + whole =~= whole);
    if s.attrs is Some {
        lemma_feed_complete(s, Seq::empty(), chunks, mid, last);
        assert(header_phase(s, whole, last) == Ok::<(nat, DecoderView<A>, bool), ErrorKind>((0, s, true)));
        assert(whole.subrange(0, whole.len() as int) =~= whole);
    } else {
        lemma_feed_carry(s, Seq::empty(), chunks, mid, last);
    }
}

/// Whether a decoder state is one that has taken nothing of a message, as a
/// fresh decoder, apart from the length of the last attribute area.
pub open spec fn ready_for_message<A>(t: DecoderView<A>) -> bool {
    &&& t.header.len() == 0
    &&& t.peeked is None
    &&& t.remaining == t.expected
    &&& t.region.len() == 0
    &&& t.attrs is None
}

/// A decoder that handed out a message decodes the next one as a fresh decoder
/// does: the same bytes are taken and the same errors reported, and the states
/// agree, apart from the length of the attribute area while the new header is
/// still incomplete.
pub proof fn lemma_decoder_reusable<A: Attribute>(s: DecoderView<A>, b: Seq<u8>, eos: Eos)
    requires
        decoder_wf(s),
        s.peeked is Some,
        s.attrs is Some,
    ensures
        ready_for_message(finish_state(s)),
        match (decode_step(finish_state(s), b, eos), decode_step(initial_decoder::<A>(), b, eos)) {
            (Ok((n1, t1)), Ok((n2, t2))) => n1 == n2 && (t2.peeked is Some ==> t1 == t2) && (t2.peeked is None
                ==> t1 == DecoderView { expected: s.expected, remaining: s.expected, ..t2 }),
            (Err(e1), Err(e2)) => e1 == e2,
            _ => false,
        },
{
    let t = finish_state(s);
    let i = initial_decoder::<A>();
    assert(t.header =~= i.header);
    assert(t.region =~= i.region);
    assert(t.decoded =~= i.decoded);
}

/// The decoder counts the bytes of the current message: a call that takes `n`
/// bytes adds `n` to what it has taken, a call on a decoder that holds a whole
/// message takes nothing, and handing out a message starts the count afresh.
pub proof fn lemma_message_taken<A: Attribute>(s: DecoderView<A>, buf: Seq<u8>, eos: Eos)
    requires
        decoder_wf(s),
        decode_step(s, buf, eos) is Ok,
    ensures
        message_taken(decode_step(s, buf, eos).unwrap().1) == message_taken(s) + decode_step(s, buf, eos).unwrap().0,
        s.attrs is Some ==> decode_step(s, buf, eos).unwrap().0 == 0,
        s.attrs is Some ==> message_taken(finish_state(s)) == 0,
{
}

/// A message whose hooks leave it as it is and whose attributes are read back
/// as themselves goes through the encoder and the decoder unchanged: an encoder
/// with nothing to write accepts it and lays it out as `message_bytes`, one buffer of that length or more
/// receives all of those bytes, a fresh decoder takes them all in one call, and
/// the message it hands out, after the hooks run after decoding, is the
/// original one with the padding that was written recorded.
pub proof fn lemma_round_trip<M: Method, A: Attribute>(e: EncoderView, m: MessageView<M, A>, buf_len: nat, eos: Eos)
    requires
        encoder_wf(e),
        encoder_clear(e),
        message_bytes(m) is Ok,
        buf_len >= message_bytes(m).unwrap().len(),
        before_encode_all(m) == Ok::<MessageView<M, A>, ErrorKind>(m),
        after_decode_all(with_attributes(m, m.attributes.map_values(|a: AttrView<A>| as_decoded(a))))
            == Ok::<MessageView<M, A>, ErrorKind>(with_attributes(m, m.attributes.map_values(|a: AttrView<A>| as_decoded(a)))),
        m.method.spec_code() < 4096,
        M::spec_from_code(m.method.spec_code()) == Some(m.method),
        m.transaction_id.len() == 12,
        attrs_read_back(m.attributes),
    ensures
        ({
            let b = message_bytes(m).unwrap();
            let d = with_attributes(m, m.attributes.map_values(|a: AttrView<A>| as_decoded(a)));
            &&& start_step(e, m).0 == Ok::<(), ErrorKind>(())
            &&& pending(start_step(e, m).1) == b
            &&& encode_pieces(start_step(e, m).1, seq![buf_len]).0 == b
            &&& decode_step::<A>(initial_decoder::<A>(), b, eos) matches Ok((n, s)) && n == b.len()
                && (finish_result::<M, A>(s) matches Ok(r) && after_decode_all(r) == Ok::<
                MessageView<M, A>,
                ErrorKind,
            >(d))
        }),
{
    let b = message_bytes(m).unwrap();
    lemma_message_layout(m);
    assert(attrs_bytes(m) is Ok);
    assert(start_step(e, m).0 is Ok) by {
        assert(e.parts[TYPE_PART as int].len() == 0);
        assert(e.parts[COOKIE_PART as int].len() == 0);
        assert(e.parts[ID_PART as int].len() == 0);
        assert(e.parts[ATTRS_PART as int].len() == 0);
        assert(e.parts[LEN_PART as int].len() == 0);
    }
    lemma_start_accepted(e, m);
    lemma_encode_pieces(start_step(e, m).1, seq![buf_len]);
    assert(total_len(seq![buf_len]) == buf_len) by {
        assert(seq![buf_len].drop_first() =~= Seq::<nat>::empty());
        assert(total_len(Seq::<nat>::empty()) == 0);
    }
    assert(b.subrange(0, b.len() as int) =~= b);
    lemma_decode_encoded(m, eos);
}

/// A decoder that handed out a message decodes the bytes of a second message
/// as it decodes them when fresh, and hands out that message.
pub proof fn lemma_decode_second_message<M: Method, A: Attribute>(s: DecoderView<A>, m: MessageView<M, A>, eos: Eos)
    requires
        decoder_wf(s),
        s.peeked is Some,
        s.attrs is Some,
        message_bytes(m) is Ok,
        m.method.spec_code() < 4096,
        M::spec_from_code(m.method.spec_code()) == Some(m.method),
        m.transaction_id.len() == 12,
        attrs_read_back(m.attributes),
    ensures
        ({
            let b = message_bytes(m).unwrap();
            &&& decode_step::<A>(finish_state(s), b, eos) matches Ok((n, t)) && n == b.len()
                && t.peeked is Some && t.attrs is Some && finish_result::<M, A>(t) == Ok::<
                MessageView<M, A>,
                ErrorKind,
            >(with_attributes(m, m.attributes.map_values(|a: AttrView<A>| as_decoded(a))))
        }),
{
    let b = message_bytes(m).unwrap();
    lemma_decode_encoded(m, eos);
    lemma_decoder_reusable(s, b, eos);
}

/// A message that the encoder accepts is laid out as `message_bytes` of it
/// after the hooks ran, and the encoder accepts one only when every part is
/// idle and the attribute part is not jammed.
pub proof fn lemma_start_accepted<M: Method, A: Attribute>(e: EncoderView, m: MessageView<M, A>)
    requires
        encoder_wf(e),
        start_step(e, m).0 is Ok,
    ensures
        encoder_clear(e),
        before_encode_all(m) is Ok,
        message_bytes(before_encode_all(m).unwrap()) is Ok,
        pending(start_step(e, m).1) == message_bytes(before_encode_all(m).unwrap()).unwrap(),
        start_step(e, m).1.parts.len() == 5,
        !start_step(e, m).1.attrs_jammed,
{
    let m2 = before_encode_all(m).unwrap();
    let body = attrs_bytes(m2).unwrap();
    let t = type_to_u16(Type { class: m2.class, method: u12_of(m2.method.spec_code()) });
    let s1 = start_step(e, m).1;
    assert(s1.parts =~= seq![be16(t), be16(body.len() as u16), be32(MAGIC_COOKIE), m2.transaction_id, body]);
    lemma_pending_parts(s1);
    assert(message_bytes(m2).unwrap() =~= be16(t) + be16(body.len() as u16) + be32(MAGIC_COOKIE) + m2.transaction_id + body);
    assert forall|i: int| 0 <= i < e.parts.len() implies #[trigger] e.parts[i].len() == 0 by {
        assert(i == TYPE_PART || i == LEN_PART || i == COOKIE_PART || i == ID_PART || i == ATTRS_PART);
    }
}

/// Encoding a message in several calls writes its bytes in order, and what is
/// left to write is the 20-byte header and the attribute area less what was
/// written.
pub proof fn lemma_encode_accounting<M: Method, A: Attribute>(e: EncoderView, m: MessageView<M, A>, lens: Seq<nat>)
    requires
        encoder_wf(e),
        start_step(e, m).0 is Ok,
        m.transaction_id.len() == 12,
    ensures
        ({
            let s1 = start_step(e, m).1;
            let body = attrs_bytes(before_encode_all(m).unwrap()).unwrap();
            let t = encode_count(s1, total_len(lens));
            let (w, f) = encode_pieces(s1, lens);
            &&& pending(s1) == message_bytes(before_encode_all(m).unwrap()).unwrap()
            &&& pending(s1).len() == HEADER_LEN + body.len()
            &&& w == pending(s1).subrange(0, t as int)
            &&& pending(f).len() == HEADER_LEN + body.len() - t
        }),
{
    let m2 = before_encode_all(m).unwrap();
    lemma_start_accepted(e, m);
    let body = attrs_bytes(m2).unwrap();
    assert(m2.transaction_id == m.transaction_id);
    assert(message_header(m2, body.len()).len() == HEADER_LEN);
    lemma_encode_pieces(start_step(e, m).1, lens);
}

} // verus!
