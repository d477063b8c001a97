//! Encoding of STUN messages into a stream of bytes.
use vstd::prelude::*;
use core::marker::PhantomData;
use crate::types::{ByteCount, Eos, ErrorKind, MAGIC_COOKIE, u12_of};
use crate::message_type::{Type, type_to_u16};
use crate::wire::{Tlv, be16, be32, header_bytes, tlvs_bytes, push_u16, push_u32, push_bytes};
use crate::attribute::{Attribute, AttrView, LosslessAttribute, attrs_tlvs, encode_attribute};
use crate::message::{Message, MessageView, Method, before_encode_all, run_before_encode};

verus! {

/// The bytes of the attribute area of `m`: the attributes one after the
/// other, or the error of the first one that cannot be encoded.
pub open spec fn attrs_bytes<M, A: Attribute>(m: MessageView<M, A>) -> Result<Seq<u8>, ErrorKind> {
    match attrs_tlvs(m.attributes) {
        Err(e) => Err(e),
        Ok(ts) => Ok(tlvs_bytes(ts)),
    }
}

/// The header that goes before an attribute area of `body_len` bytes.
pub open spec fn message_header<M: Method, A>(m: MessageView<M, A>, body_len: nat) -> Seq<u8> {
    header_bytes(
        type_to_u16(Type { class: m.class, method: u12_of(m.method.spec_code()) }),
        body_len as u16,
        m.transaction_id,
    )
}

/// The bytes of the message `m` (whose hooks have run): the header and the
/// attribute area; `InvalidInput` when the area is 0x10000 bytes or longer.
pub open spec fn message_bytes<M: Method, A: Attribute>(m: MessageView<M, A>) -> Result<Seq<u8>, ErrorKind> {
    match attrs_bytes(m) {
        Err(e) => Err(e),
        Ok(body) => if body.len() >= 0x1_0000 {
            Err(ErrorKind::InvalidInput)
        } else {
            Ok(message_header(m, body.len()) + body)
        },
    }
}

/// The parts of a message, in the order in which they are written: the
/// message type, the message length, the magic cookie, the transaction id and
/// the attribute area.
pub const TYPE_PART: usize = 0;
pub const LEN_PART: usize = 1;
pub const COOKIE_PART: usize = 2;
pub const ID_PART: usize = 3;
pub const ATTRS_PART: usize = 4;

/// The abstract state of an encoder: what is left to write of each part of
/// the message, and whether the attribute part is jammed.
pub ghost struct EncoderView {
    /// The bytes still to be written of each part; a part with none left is
    /// idle.  A part is given new bytes only while it is idle.
    pub parts: Seq<Seq<u8>>,
    /// Whether an attribute failed to encode: the attribute part is then left
    /// busy for good, and refuses every later message.
    pub attrs_jammed: bool,
}

/// The bytes of `p`, one part after the other.
pub open spec fn flatten(p: Seq<Seq<u8>>) -> Seq<u8>
    decreases p.len(),
{
    if p.len() == 0 {
        Seq::empty()
    } else {
        p[0] + flatten(p.drop_first())
    }
}

/// The bytes the encoder still has to write, in the order it writes them.
pub open spec fn pending(s: EncoderView) -> Seq<u8> {
    flatten(s.parts)
}

/// Whether an encoder state can occur: five parts, the header fields no longer
/// than they are.
pub open spec fn encoder_wf(s: EncoderView) -> bool {
    &&& s.parts.len() == 5
    &&& s.parts[TYPE_PART as int].len() <= 2
    &&& s.parts[LEN_PART as int].len() <= 2
    &&& s.parts[COOKIE_PART as int].len() <= 4
    &&& s.parts[ID_PART as int].len() <= 12
}

/// Whether the encoder reports itself idle: the transaction id and the
/// attribute area are written.
pub open spec fn encoder_idle(s: EncoderView) -> bool {
    s.parts[ID_PART as int].len() == 0 && s.parts[ATTRS_PART as int].len() == 0
}

/// Whether every part is idle and the attribute part is not jammed, as in a
/// new encoder.
pub open spec fn encoder_clear(s: EncoderView) -> bool {
    &&& forall|i: int| 0 <= i < s.parts.len() ==> #[trigger] s.parts[i].len() == 0
    &&& !s.attrs_jammed
}

/// `s` with part `i` given the bytes `b`.
pub open spec fn restart(s: EncoderView, i: int, b: Seq<u8>) -> EncoderView {
    EncoderView { parts: s.parts.update(i, b), ..s }
}

/// What `start_encoding` does with the message `m` in the state `s`: the error
/// or success it reports and the state it leaves.  The hooks run first.  Then
/// the message type, the magic cookie and the transaction id are given to
/// their parts, in this order; a part that is still busy refuses with
/// `EncoderFull`, and the parts given before stay given.  A jammed attribute
/// part refuses next; then the attributes are encoded, and the first one that
/// fails jams the part; a busy attribute part refuses the encoded area; an
/// area of 0x10000 bytes or more is an `InvalidInput` error, after it was
/// given; last the length is given to its part.
pub open spec fn start_step<M: Method, A: Attribute>(s: EncoderView, m: MessageView<M, A>) -> (Result<(), ErrorKind>, EncoderView) {
    match before_encode_all(m) {
        Err(e) => (Err(e), s),
        Ok(m2) => {
            let t = type_to_u16(Type { class: m2.class, method: u12_of(m2.method.spec_code()) });
            if s.parts[TYPE_PART as int].len() > 0 {
                (Err(ErrorKind::EncoderFull), s)
            } else {
                let s1 = restart(s, TYPE_PART as int, be16(t));
                if s1.parts[COOKIE_PART as int].len() > 0 {
                    (Err(ErrorKind::EncoderFull), s1)
                } else {
                    let s2 = restart(s1, COOKIE_PART as int, be32(MAGIC_COOKIE));
                    if s2.parts[ID_PART as int].len() > 0 {
                        (Err(ErrorKind::EncoderFull), s2)
                    } else {
                        let s3 = restart(s2, ID_PART as int, m2.transaction_id);
                        if s3.attrs_jammed {
                            (Err(ErrorKind::EncoderFull), s3)
                        } else {
                            match attrs_bytes(m2) {
                                Err(e) => (Err(e), EncoderView { attrs_jammed: true, ..s3 }),
                                Ok(body) => if s3.parts[ATTRS_PART as int].len() > 0 {
                                    (Err(ErrorKind::EncoderFull), s3)
                                } else {
                                    let s4 = restart(s3, ATTRS_PART as int, body);
                                    if body.len() >= 0x1_0000 {
                                        (Err(ErrorKind::InvalidInput), s4)
                                    } else if s4.parts[LEN_PART as int].len() > 0 {
                                        (Err(ErrorKind::EncoderFull), s4)
                                    } else {
                                        (Ok(()), restart(s4, LEN_PART as int, be16(body.len() as u16)))
                                    }
                                },
                            }
                        }
                    }
                }
            }
        },
    }
}

/// What is left of the parts `p` after `n` bytes are written into them: the
/// first part takes as many as it has left; once it is finished the rest go
/// on to the next part.
pub open spec fn consume(p: Seq<Seq<u8>>, n: nat) -> Seq<Seq<u8>>
    decreases p.len(),
{
    if p.len() == 0 {
        p
    } else if n < p[0].len() {
        p.update(0, p[0].subrange(n as int, p[0].len() as int))
    } else {
        seq![Seq::<u8>::empty()] + consume(p.drop_first(), (n - p[0].len()) as nat)
    }
}

/// Number of bytes that one call of `encode` with a buffer of `buf_len` bytes
/// writes in the state `s`: as many of the bytes still to be written as fit.
pub open spec fn encode_count(s: EncoderView, buf_len: nat) -> nat {
    if buf_len < pending(s).len() {
        buf_len
    } else {
        pending(s).len()
    }
}

/// The state after one call of `encode` with a buffer of `buf_len` bytes.
pub open spec fn encode_state(s: EncoderView, buf_len: nat) -> EncoderView {
    EncoderView { parts: consume(s.parts, buf_len), ..s }
}

/// `n` idle parts.
pub open spec fn idle_parts(n: nat) -> Seq<Seq<u8>> {
    Seq::new(n, |_i: int| Seq::<u8>::empty())
}

/// The bytes of parts put one after the other are those of each in turn.
pub proof fn lemma_flatten_append(a: Seq<Seq<u8>>, b: Seq<Seq<u8>>)
    ensures
        flatten(a + b) == flatten(a) + flatten(b),
    decreases a.len(),
{
    if a.len() == 0 {
        assert(a + b =~= b);
        assert(Seq::<u8>::empty() + flatten(b) =~= flatten(b));
    } else {
        lemma_flatten_append(a.drop_first(), b);
        assert((a + b).drop_first() =~= a.drop_first() + b);
        assert(a[0] + (flatten(a.drop_first()) + flatten(b)) =~= (a[0] + flatten(a.drop_first())) + flatten(b));
    }
}

/// Writing `n` bytes into the parts takes the first `n` of their bytes, or all
/// of them.
pub proof fn lemma_pending_consume(p: Seq<Seq<u8>>, n: nat)
    ensures
        flatten(consume(p, n)) == flatten(p).subrange(
            (if n < flatten(p).len() { n } else { flatten(p).len() }) as int,
            flatten(p).len() as int,
        ),
    decreases p.len(),
{
    if p.len() == 0 {
        assert(flatten(p).subrange(0, 0) =~= Seq::<u8>::empty());
    } else if n < p[0].len() {
        let q = consume(p, n);
        assert(q.drop_first() =~= p.drop_first());
        assert(flatten(q) =~= flatten(p).subrange(n as int, flatten(p).len() as int));
    } else {
        let r = (n - p[0].len()) as nat;
        lemma_pending_consume(p.drop_first(), r);
        let q = consume(p, n);
        assert(q.drop_first() =~= consume(p.drop_first(), r));
        assert(flatten(q) =~= Seq::<u8>::empty() + flatten(consume(p.drop_first(), r)));
        assert(flatten(q) =~= flatten(p).subrange(
            (if n < flatten(p).len() { n } else { flatten(p).len() }) as int,
            flatten(p).len() as int,
        ));
    }
}

/// The bytes still to be written of five parts.
pub proof fn lemma_pending_parts(s: EncoderView)
    requires
        s.parts.len() == 5,
    ensures
        pending(s) == s.parts[0] + s.parts[1] + s.parts[2] + s.parts[3] + s.parts[4],
{
    let p = s.parts;
    let p1 = p.drop_first();
    let p2 = p1.drop_first();
    let p3 = p2.drop_first();
    let p4 = p3.drop_first();
    let p5 = p4.drop_first();
    assert(p5.len() == 0);
    assert(flatten(p4) == p[4] + flatten(p5));
    assert(flatten(p3) == p[3] + flatten(p4));
    assert(flatten(p2) == p[2] + flatten(p3));
    assert(flatten(p1) == p[1] + flatten(p2));
    assert(flatten(p) == p[0] + flatten(p1));
    assert(pending(s) =~= s.parts[0] + s.parts[1] + s.parts[2] + s.parts[3] + s.parts[4]);
}

/// A part that a write finishes hands the rest of the write to the next part.
proof fn lemma_encode_step(p: Seq<Seq<u8>>, i: int, r: nat)
    requires
        0 <= i < p.len(),
        r >= p[i].len(),
    ensures
        consume(p.skip(i), r) == seq![Seq::<u8>::empty()] + consume(p.skip(i + 1), (r - p[i].len()) as nat),
        flatten(p.take(i + 1)) == flatten(p.take(i)) + p[i],
        idle_parts(i as nat) + seq![Seq::<u8>::empty()] == idle_parts((i + 1) as nat),
{
    let t = p.skip(i);
    assert(t[0] == p[i]);
    assert(t.drop_first() =~= p.skip(i + 1));
    assert(p.take(i + 1) =~= p.take(i) + seq![p[i]]);
    lemma_flatten_append(p.take(i), seq![p[i]]);
    assert(seq![p[i]].drop_first() =~= Seq::<Seq<u8>>::empty());
    assert(flatten(seq![p[i]]) == p[i] + flatten(seq![p[i]].drop_first()));
    assert(flatten(seq![p[i]]) =~= p[i]);
    assert(idle_parts(i as nat) + seq![Seq::<u8>::empty()] =~= idle_parts((i + 1) as nat));
}

/// A write that ends inside a part leaves the rest of that part and the parts
/// after it, and took the bytes before its end.
proof fn lemma_encode_stop(p: Seq<Seq<u8>>, i: int, r: nat)
    requires
        0 <= i < p.len(),
        r < p[i].len(),
    ensures
        consume(p.skip(i), r) == p.skip(i).update(0, p[i].subrange(r as int, p[i].len() as int)),
        flatten(p).len() > flatten(p.take(i)).len() + r,
        flatten(p).subrange(0, (flatten(p.take(i)).len() + r) as int) == flatten(p.take(i)) + p[i].subrange(0, r as int),
{
    let t = p.skip(i);
    assert(t[0] == p[i]);
    lemma_flatten_append(p.take(i), t);
    assert(p =~= p.take(i) + t);
    assert(flatten(t) == p[i] + flatten(t.drop_first()));
    assert(flatten(p).subrange(0, (flatten(p.take(i)).len() + r) as int) =~= flatten(p.take(i)) + p[i].subrange(0, r as int));
}

/// One part of a message being written: its bytes and how many of them were
/// written.
struct Part {
    bytes: Vec<u8>,
    written: usize,
}

impl Part {
    /// The bytes of the part still to be written.
    spec fn left(self) -> Seq<u8> {
        self.bytes@.subrange(self.written as int, self.bytes@.len() as int)
    }

    /// A part with nothing given to it.
    fn idle() -> (r: Part)
        ensures
            r.bytes@.len() == 0,
            r.written == 0,
    {
        Part { bytes: Vec::new(), written: 0 }
    }
}

/// Encoder of STUN messages.
pub struct MessageEncoder<M, A> {
    message_type: Part,
    message_len: Part,
    magic_cookie: Part,
    transaction_id: Part,
    attributes: Part,
    attrs_jammed: bool,
    _phantom: PhantomData<(M, A)>,
}

impl<M, A> View for MessageEncoder<M, A> {
    type V = EncoderView;

    closed spec fn view(&self) -> EncoderView {
        EncoderView {
            parts: seq![
                self.message_type.left(),
                self.message_len.left(),
                self.magic_cookie.left(),
                self.transaction_id.left(),
                self.attributes.left(),
            ],
            attrs_jammed: self.attrs_jammed,
        }
    }
}

/// Appends the bytes of `attrs` to `out`, or reports the first error.
fn encode_attributes<A: Attribute>(attrs: &Vec<LosslessAttribute<A>>, out: &mut Vec<u8>) -> (r: Result<(), ErrorKind>)
    ensures
        match attrs_tlvs(attrs@.map_values(|a: LosslessAttribute<A>| a@)) {
            Ok(ts) => r is Ok && final(out)@ == old(out)@ + tlvs_bytes(ts),
            Err(e) => r == Err::<(), ErrorKind>(e),
        },
{
    let ghost views = attrs@.map_values(|a: LosslessAttribute<A>| a@);
    let mut i: usize = 0;
    let ghost mut ts: Seq<Tlv> = Seq::empty();
    assert(views.subrange(0, 0) =~= Seq::<AttrView<A>>::empty());
    while i < attrs.len()
        invariant
            i <= attrs@.len(),
            views == attrs@.map_values(|a: LosslessAttribute<A>| a@),
            attrs_tlvs(views.subrange(0, i as int)) == Ok::<Seq<Tlv>, ErrorKind>(ts),
            out@ == old(out)@ + tlvs_bytes(ts),
        decreases attrs@.len() - i,
    {
        let ghost before = out@;
        proof {
            assert(views.subrange(0, i + 1).drop_last() =~= views.subrange(0, i as int));
            assert(views.subrange(0, i + 1).last() == attrs@[i as int]@);
        }
        match encode_attribute(&attrs[i], out) {
            Ok(_) => {},
            Err(e) => {
                proof {
                    lemma_attrs_tlvs_err(views, (i + 1) as nat);
                }
                return Err(e);
            },
        }
        proof {
            let t = crate::attribute::attr_tlv(attrs@[i as int]@).unwrap();
            crate::wire::lemma_tlvs_bytes_push(ts, t);
            ts = ts.push(t);
        }
        i = i + 1;
    }
    assert(views.subrange(0, i as int) =~= views);
    Ok(())
}

/// Once an attribute fails to encode, every longer prefix fails with its error.
proof fn lemma_attrs_tlvs_err<A: Attribute>(s: Seq<AttrView<A>>, k: nat)
    requires
        k <= s.len(),
        attrs_tlvs(s.subrange(0, k as int)) is Err,
    ensures
        attrs_tlvs(s) == attrs_tlvs(s.subrange(0, k as int)),
    decreases s.len() - k,
{
    if k < s.len() {
        assert(s.subrange(0, k + 1 as int).drop_last() =~= s.subrange(0, k as int));
        lemma_attrs_tlvs_err(s, k + 1);
    } else {
        assert(s.subrange(0, k as int) =~= s);
    }
}

impl<M, A> MessageEncoder<M, A> {
    /// The state of every encoder can occur.
    #[verifier::type_invariant]
    closed spec fn wf(self) -> bool {
        &&& self.message_type.written <= self.message_type.bytes@.len() <= 2
        &&& self.message_len.written <= self.message_len.bytes@.len() <= 2
        &&& self.magic_cookie.written <= self.magic_cookie.bytes@.len() <= 4
        &&& self.transaction_id.written <= self.transaction_id.bytes@.len() <= 12
        &&& self.attributes.written <= self.attributes.bytes@.len()
    }

    /// Part `i`, in the order in which the parts are written.
    spec fn part_at(self, i: int) -> Part {
        if i == TYPE_PART {
            self.message_type
        } else if i == LEN_PART {
            self.message_len
        } else if i == COOKIE_PART {
            self.magic_cookie
        } else if i == ID_PART {
            self.transaction_id
        } else {
            self.attributes
        }
    }

    /// Part `i`.
    fn part(&self, i: usize) -> (r: &Part)
        requires
            i < 5,
        ensures
            *r == self.part_at(i as int),
            r.written <= r.bytes@.len(),
            r.left() == self@.parts[i as int],
    {
        proof {
            use_type_invariant(self);
        }
        if i == TYPE_PART {
            &self.message_type
        } else if i == LEN_PART {
            &self.message_len
        } else if i == COOKIE_PART {
            &self.magic_cookie
        } else if i == ID_PART {
            &self.transaction_id
        } else {
            &self.attributes
        }
    }

    /// Number of bytes still to be written of part `i`.
    fn part_left(&self, i: usize) -> (r: usize)
        requires
            i < 5,
        ensures
            r == self@.parts[i as int].len(),
    {
        let p = self.part(i);
        p.bytes.len() - p.written
    }

    /// Records that part `i` was written up to `w` bytes.
    fn set_written(&mut self, i: usize, w: usize)
        requires
            i < 5,
            old(self).part_at(i as int).written <= w <= old(self).part_at(i as int).bytes@.len(),
        ensures
            final(self)@ == (EncoderView {
                parts: old(self)@.parts.update(i as int, old(self).part_at(i as int).bytes@.subrange(w as int, old(self).part_at(i as int).bytes@.len() as int)),
                ..old(self)@
            }),
            forall|j: int| 0 <= j < 5 && j != i ==> final(self).part_at(j) == old(self).part_at(j),
            final(self).part_at(i as int).bytes == old(self).part_at(i as int).bytes,
    {
        proof {
            use_type_invariant(&*self);
        }
        if i == TYPE_PART {
            self.message_type.written = w;
        } else if i == LEN_PART {
            self.message_len.written = w;
        } else if i == COOKIE_PART {
            self.magic_cookie.written = w;
        } else if i == ID_PART {
            self.transaction_id.written = w;
        } else {
            self.attributes.written = w;
        }
        proof {
            assert(final(self)@.parts =~= old(self)@.parts.update(i as int, old(self).part_at(i as int).bytes@.subrange(w as int, old(self).part_at(i as int).bytes@.len() as int)));
        }
    }

    /// Gives part `i` the bytes `b`.
    fn restart_part(&mut self, i: usize, b: Vec<u8>)
        requires
            i < 5,
            encoder_wf(restart(old(self)@, i as int, b@)),
        ensures
            final(self)@ == restart(old(self)@, i as int, b@),
    {
        proof {
            use_type_invariant(&*self);
        }
        let ghost b_view = b@;
        if i == TYPE_PART {
            self.message_type = Part { bytes: b, written: 0 };
        } else if i == LEN_PART {
            self.message_len = Part { bytes: b, written: 0 };
        } else if i == COOKIE_PART {
            self.magic_cookie = Part { bytes: b, written: 0 };
        } else if i == ID_PART {
            self.transaction_id = Part { bytes: b, written: 0 };
        } else {
            self.attributes = Part { bytes: b, written: 0 };
        }
        proof {
            assert(b_view.subrange(0, b_view.len() as int) =~= b_view);
            assert(self@.parts =~= old(self)@.parts.update(i as int, b_view));
        }
    }
}

impl<M: Method, A: Attribute> MessageEncoder<M, A> {
    /// An encoder with nothing to write.
    pub fn new() -> (r: Self)
        ensures
            encoder_wf(r@),
            encoder_clear(r@),
    {
        let r = MessageEncoder {
            message_type: Part::idle(),
            message_len: Part::idle(),
            magic_cookie: Part::idle(),
            transaction_id: Part::idle(),
            attributes: Part::idle(),
            attrs_jammed: false,
            _phantom: PhantomData,
        };
        proof {
            assert forall|i: int| 0 <= i < r@.parts.len() implies #[trigger] r@.parts[i].len() == 0 by {
                assert(i == 0 || i == 1 || i == 2 || i == 3 || i == 4);
            }
        }
        r
    }

    /// Takes `item` to be written; see `start_step`, which says what it
    /// reports and what it leaves to be written.
    pub fn start_encoding(&mut self, item: Message<M, A>) -> (r: Result<(), ErrorKind>)
        ensures
            encoder_wf(old(self)@),
            encoder_wf(final(self)@),
            r == start_step(old(self)@, item@).0,
            final(self)@ == start_step(old(self)@, item@).1,
    {
        proof {
            use_type_invariant(&*self);
        }
        let item = run_before_encode(item)?;
        let ghost m2 = item@;
        let (class, method, transaction_id, attributes) = item.into_parts();
        let message_type = Type { class, method: method.as_u12() };
        proof {
            crate::types::lemma_u12_of(method.spec_code());
            crate::types::lemma_u12_ext(message_type.method, u12_of(method.spec_code()));
        }
        if self.part_left(TYPE_PART) > 0 {
            return Err(ErrorKind::EncoderFull);
        }
        let mut b: Vec<u8> = Vec::new();
        push_u16(&mut b, message_type.as_u16());
        self.restart_part(TYPE_PART, b);
        if self.part_left(COOKIE_PART) > 0 {
            return Err(ErrorKind::EncoderFull);
        }
        let mut b: Vec<u8> = Vec::new();
        push_u32(&mut b, MAGIC_COOKIE);
        self.restart_part(COOKIE_PART, b);
        if self.part_left(ID_PART) > 0 {
            return Err(ErrorKind::EncoderFull);
        }
        let mut b: Vec<u8> = Vec::new();
        push_bytes(&mut b, transaction_id.as_bytes());
        self.restart_part(ID_PART, b);
        if self.attrs_jammed {
            return Err(ErrorKind::EncoderFull);
        }
        let mut body: Vec<u8> = Vec::new();
        match encode_attributes(&attributes, &mut body) {
            Ok(_) => {},
            Err(e) => {
                proof {
                    use_type_invariant(&*self);
                }
                self.attrs_jammed = true;
                return Err(e);
            },
        }
        assert(body@ == attrs_bytes(m2).unwrap());
        if self.part_left(ATTRS_PART) > 0 {
            return Err(ErrorKind::EncoderFull);
        }
        let body_len = body.len();
        self.restart_part(ATTRS_PART, body);
        if body_len >= 0x1_0000 {
            return Err(ErrorKind::InvalidInput);
        }
        if self.part_left(LEN_PART) > 0 {
            return Err(ErrorKind::EncoderFull);
        }
        let mut b: Vec<u8> = Vec::new();
        push_u16(&mut b, body_len as u16);
        self.restart_part(LEN_PART, b);
        Ok(())
    }

    /// Writes into `buf`, from `pos` on, as many of the bytes left of part `i`
    /// as fit; returns how many it wrote.
    fn write_part(&mut self, i: usize, buf: &mut [u8], pos: usize) -> (k: usize)
        requires
            i < 5,
            pos <= old(buf)@.len(),
        ensures
            k == (if old(buf)@.len() - pos < old(self)@.parts[i as int].len() {
                (old(buf)@.len() - pos) as nat
            } else {
                old(self)@.parts[i as int].len()
            }),
            final(buf)@ == old(buf)@.subrange(0, pos as int) + old(self)@.parts[i as int].subrange(0, k as int)
                + old(buf)@.subrange(pos + k, old(buf)@.len() as int),
            final(self)@ == (EncoderView {
                parts: old(self)@.parts.update(i as int, old(self)@.parts[i as int].subrange(k as int, old(self)@.parts[i as int].len() as int)),
                ..old(self)@
            }),
    {
        let left = self.part_left(i);
        let k = if buf.len() - pos < left {
            buf.len() - pos
        } else {
            left
        };
        let from = self.part(i).written;
        let part_len = self.part(i).bytes.len();
        let buf_len = buf.len();
        let ghost before = buf@;
        let ghost q = self@.parts[i as int];
        let ghost pb = self.part_at(i as int).bytes@;
        let mut j: usize = 0;
        while j < k
            invariant
                j <= k <= left,
                pos + k <= buf_len == buf@.len() == before.len(),
                from + left == part_len == pb.len(),
                pb == self.part_at(i as int).bytes@,
                i < 5,
                forall|x: int| 0 <= x < pos + j ==> buf@[x] == (if x < pos { before[x] } else { pb[from + x - pos] }),
                forall|x: int| pos + j <= x < buf@.len() ==> buf@[x] == before[x],
            decreases k - j,
        {
            buf[pos + j] = self.part(i).bytes[from + j];
            j = j + 1;
        }
        proof {
            assert(q == pb.subrange(from as int, pb.len() as int));
            assert(buf@ =~= before.subrange(0, pos as int) + q.subrange(0, k as int) + before.subrange(pos + k, before.len() as int));
            assert(pb.subrange(from + k, pb.len() as int) =~= q.subrange(k as int, q.len() as int));
        }
        self.set_written(i, from + k);
        k
    }

    /// Writes the next bytes of the message into `buf`, as many as fit, part
    /// after part; returns how many it wrote.  `UnexpectedEos` when the stream
    /// ends right after `buf` and bytes are left to write (they were written
    /// as far as they fit).
    pub fn encode(&mut self, buf: &mut [u8], eos: Eos) -> (r: Result<usize, ErrorKind>)
        ensures
            encoder_wf(old(self)@),
            encoder_wf(final(self)@),
            ({
                let s = old(self)@;
                let n = encode_count(s, old(buf)@.len());
                &&& final(self)@ == encode_state(s, old(buf)@.len())
                &&& final(buf)@ == pending(s).subrange(0, n as int) + old(buf)@.subrange(n as int, old(buf)@.len() as int)
                &&& r == if n < pending(s).len() && eos.spec_is_reached() {
                    Err::<usize, ErrorKind>(ErrorKind::UnexpectedEos)
                } else {
                    Ok::<usize, ErrorKind>(n as usize)
                }
            }),
    {
        proof {
            use_type_invariant(&*self);
        }
        let ghost s0 = self@;
        let ghost p0 = self@.parts;
        let ghost old_buf = buf@;
        let ghost room = buf@.len();
        let buf_len = buf.len();
        let mut pos: usize = 0;
        let mut i: usize = 0;
        proof {
            assert(idle_parts(0) + p0.skip(0) =~= p0);
            assert(p0.take(0) =~= Seq::<Seq<u8>>::empty());
            assert(old_buf.subrange(0, room as int) =~= old_buf);
        }
        while i < 5
            invariant
                i <= 5,
                pos <= room == buf@.len() == old_buf.len() == buf_len,
                s0 == old(self)@,
                old_buf == old(buf)@,
                encoder_wf(s0),
                p0 == s0.parts,
                self@.parts == idle_parts(i as nat) + p0.skip(i as int),
                self@.attrs_jammed == s0.attrs_jammed,
                pos == flatten(p0.take(i as int)).len(),
                buf@ == flatten(p0.take(i as int)) + old_buf.subrange(pos as int, room as int),
                consume(p0, room) == idle_parts(i as nat) + consume(p0.skip(i as int), (room - pos) as nat),
            decreases 5 - i,
        {
            let ghost q = p0[i as int];
            let ghost before = buf@;
            proof {
                assert(self@.parts[i as int] == q);
            }
            let left = self.part_left(i);
            let k = self.write_part(i, buf, pos);
            if k < left {
                proof {
                    lemma_encode_stop(p0, i as int, (room - pos) as nat);
                    assert(self@.parts =~= idle_parts(i as nat) + p0.skip(i as int).update(0, q.subrange(k as int, q.len() as int)));
                    assert(old_buf.subrange(pos as int, room as int).subrange(k as int, (room - pos) as int) =~= old_buf.subrange(room as int, room as int));
                    assert(buf@ =~= flatten(p0.take(i as int)) + q.subrange(0, k as int) + old_buf.subrange(room as int, room as int));
                    assert(k == room - pos);
                    assert(self@.parts == consume(p0, room));
                    assert(self@ == encode_state(s0, room));
                    assert(pending(s0) == flatten(p0));
                    assert(encode_count(s0, room) == room);
                    assert(buf@ == pending(s0).subrange(0, room as int) + old_buf.subrange(room as int, room as int));
                }
                pos = pos + k;
                if eos.is_reached() {
                    return Err(ErrorKind::UnexpectedEos);
                }
                return Ok(pos);
            }
            proof {
                lemma_encode_step(p0, i as int, (room - pos) as nat);
                assert(q.subrange(k as int, q.len() as int) =~= Seq::<u8>::empty());
                assert(q.subrange(0, k as int) =~= q);
                assert(self@.parts =~= idle_parts((i + 1) as nat) + p0.skip(i + 1));
                assert(before.subrange(pos + k, room as int) =~= old_buf.subrange(pos + k, room as int));
                assert(buf@ =~= flatten(p0.take(i as int)) + q + old_buf.subrange(pos + k, room as int));
            }
            pos = pos + k;
            i = i + 1;
        }
        proof {
            assert(p0.take(5) =~= p0);
            assert(p0.skip(5) =~= Seq::<Seq<u8>>::empty());
            assert(idle_parts(5) + Seq::<Seq<u8>>::empty() =~= idle_parts(5));
            assert(pending(s0) == flatten(p0));
            assert(pending(s0).subrange(0, pos as int) =~= pending(s0));
            assert(old_buf.subrange(pos as int, room as int) =~= old_buf.subrange(pos as int, old_buf.len() as int));
            assert(self@ == encode_state(s0, room));
        }
        Ok(pos)
    }

    /// Number of bytes still to be written (`u64::MAX` for more than it holds).
    pub fn exact_requiring_bytes(&self) -> (r: u64)
        ensures
            encoder_wf(self@),
            r == if pending(self@).len() <= u64::MAX { pending(self@).len() } else { u64::MAX as nat },
    {
        proof {
            use_type_invariant(self);
            lemma_pending_parts(self@);
        }
        let head = (self.part_left(TYPE_PART) + self.part_left(LEN_PART) + self.part_left(COOKIE_PART)
            + self.part_left(ID_PART)) as u64;
        let area = self.part_left(ATTRS_PART) as u64;
        if area > u64::MAX - head {
            u64::MAX
        } else {
            head + area
        }
    }

    /// Number of bytes still to be written.
    pub fn requiring_bytes(&self) -> (r: ByteCount)
        ensures
            r == ByteCount::Finite(
                (if pending(self@).len() <= u64::MAX { pending(self@).len() } else { u64::MAX as nat }) as u64,
            ),
    {
        ByteCount::Finite(self.exact_requiring_bytes())
    }

    /// Whether the transaction id and the attribute area are written.
    pub fn is_idle(&self) -> (r: bool)
        ensures
            r == encoder_idle(self@),
    {
        self.part_left(ID_PART) == 0 && self.part_left(ATTRS_PART) == 0
    }
}

impl<M: Method, A: Attribute> Default for MessageEncoder<M, A> {
    fn default() -> (r: Self)
        ensures
            encoder_wf(r@),
            encoder_clear(r@),
    {
        Self::new()
    }
}

/// The bytes that successive calls of `encode` with buffers of the lengths
/// `lens` write in the state `s`, one after the other, and the state after them.
pub open spec fn encode_pieces(s: EncoderView, lens: Seq<nat>) -> (Seq<u8>, EncoderView)
    decreases lens.len(),
{
    if lens.len() == 0 {
        (Seq::empty(), s)
    } else {
        let n = encode_count(s, lens[0]);
        let (w, s2) = encode_pieces(encode_state(s, lens[0]), lens.drop_first());
        (pending(s).subrange(0, n as int) + w, s2)
    }
}

/// The sum of `lens`.
pub open spec fn total_len(lens: Seq<nat>) -> nat
    decreases lens.len(),
{
    if lens.len() == 0 {
        0
    } else {
        lens[0] + total_len(lens.drop_first())
    }
}

/// Encoding into several buffers writes what encoding into one buffer of
/// their total length writes: the next bytes still to be written, as many as
/// the buffers hold, in order; what is left to write shrinks by as many.
pub proof fn lemma_encode_pieces(s: EncoderView, lens: Seq<nat>)
    ensures
        ({
            let t = encode_count(s, total_len(lens));
            &&& encode_pieces(s, lens).0 == pending(s).subrange(0, t as int)
            &&& pending(encode_pieces(s, lens).1) == pending(s).subrange(t as int, pending(s).len() as int)
            &&& encode_pieces(s, lens).1.attrs_jammed == s.attrs_jammed
        }),
    decreases lens.len(),
{
    lemma_pending_consume(s.parts, 0);
    if lens.len() == 0 {
        assert(pending(s).subrange(0, 0) =~= Seq::<u8>::empty());
        assert(pending(s).subrange(0, pending(s).len() as int) =~= pending(s));
    } else {
        let n = encode_count(s, lens[0]);
        let s1 = encode_state(s, lens[0]);
        lemma_pending_consume(s.parts, lens[0]);
        lemma_encode_pieces(s1, lens.drop_first());
        let t = encode_count(s, total_len(lens));
        let t1 = encode_count(s1, total_len(lens.drop_first()));
        assert(pending(s1) =~= pending(s).subrange(n as int, pending(s).len() as int));
        assert(t == n + t1);
        assert(pending(s).subrange(0, n as int) + pending(s1).subrange(0, t1 as int) =~= pending(s).subrange(0, t as int));
        assert(pending(s1).subrange(t1 as int, pending(s1).len() as int) =~= pending(s).subrange(t as int, pending(s).len() as int));
    }
}

} // verus!
