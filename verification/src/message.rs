//! STUN messages.
use vstd::prelude::*;
use crate::types::{ErrorKind, U12, TransactionId};
use crate::message_type::MessageClass;
use crate::attribute::{Attribute, AttrView, LosslessAttribute, RawAttribute};

verus! {

/// A STUN method.
pub trait Method: Sized {
    /// The 12-bit code of this method.
    spec fn spec_code(&self) -> u16;

    /// The method whose code is `code`, if this set has one.
    spec fn spec_from_code(code: u16) -> Option<Self>;

    /// The 12-bit code of this method.
    fn as_u12(&self) -> (r: U12)
        ensures
            r.spec_value() == self.spec_code(),
    ;

    /// The method whose code is `value`, if this set has one.
    fn from_u12(value: U12) -> (r: Option<Self>)
        ensures
            r == Self::spec_from_code(value.spec_value()),
    ;
}

/// The abstract form of a message.
#[verifier::ext_equal]
pub ghost struct MessageView<M, A> {
    pub class: MessageClass,
    pub method: M,
    pub transaction_id: Seq<u8>,
    pub attributes: Seq<AttrView<A>>,
}

/// A STUN message.
#[derive(Debug, Clone)]
pub struct Message<M, A> {
    class: MessageClass,
    method: M,
    transaction_id: TransactionId,
    attributes: Vec<LosslessAttribute<A>>,
}

impl<M, A> View for Message<M, A> {
    type V = MessageView<M, A>;

    closed spec fn view(&self) -> MessageView<M, A> {
        MessageView {
            class: self.class,
            method: self.method,
            transaction_id: self.transaction_id.spec_bytes(),
            attributes: self.attributes@.map_values(|a: LosslessAttribute<A>| a@),
        }
    }
}

/// The known attributes of `s`, in order.
pub open spec fn known_attrs<A>(s: Seq<AttrView<A>>) -> Seq<A>
    decreases s.len(),
{
    if s.len() == 0 {
        Seq::empty()
    } else {
        match s.last() {
            AttrView::Known { inner, .. } => known_attrs(s.drop_last()).push(inner),
            AttrView::Unknown { .. } => known_attrs(s.drop_last()),
        }
    }
}

/// The type and value of each attribute of `s` that is not a known one, in order.
pub open spec fn unknown_attrs<A>(s: Seq<AttrView<A>>) -> Seq<(u16, Seq<u8>)>
    decreases s.len(),
{
    if s.len() == 0 {
        Seq::empty()
    } else {
        match s.last() {
            AttrView::Known { .. } => unknown_attrs(s.drop_last()),
            AttrView::Unknown { attr_type, value, .. } => unknown_attrs(s.drop_last()).push((attr_type, value)),
        }
    }
}

/// Pushing a known attribute puts it after the known attributes there were,
/// and leaves the others as they were.
pub proof fn lemma_push_appends<A>(s: Seq<AttrView<A>>, a: A)
    ensures
        known_attrs(s.push(AttrView::Known { inner: a, padding: None })) == known_attrs(s).push(a),
        unknown_attrs(s.push(AttrView::Known { inner: a, padding: None })) == unknown_attrs(s),
{
    assert(s.push(AttrView::Known { inner: a, padding: None }).drop_last() =~= s);
}

/// The known and the raw attributes of attributes put one after the other
/// are those of each in turn; a single known attribute is listed among the
/// known ones with its value, a single raw one among the raw ones with its
/// type code and value, whatever the code.  So every attribute is listed
/// exactly once, in order.
pub proof fn lemma_attribute_lists<A>(s1: Seq<AttrView<A>>, s2: Seq<AttrView<A>>, inner: A, attr_type: u16, value: Seq<u8>, padding: Option<Seq<u8>>)
    ensures
        known_attrs(s1 + s2) == known_attrs(s1) + known_attrs(s2),
        unknown_attrs(s1 + s2) == unknown_attrs(s1) + unknown_attrs(s2),
        known_attrs(seq![AttrView::<A>::Known { inner, padding }]) == seq![inner],
        unknown_attrs(seq![AttrView::<A>::Known { inner, padding }]) == Seq::<(u16, Seq<u8>)>::empty(),
        known_attrs(seq![AttrView::<A>::Unknown { attr_type, value, padding }]) == Seq::<A>::empty(),
        unknown_attrs(seq![AttrView::<A>::Unknown { attr_type, value, padding }]) == seq![(attr_type, value)],
        known_attrs(s1).len() + unknown_attrs(s1).len() == s1.len(),
    decreases s2.len(),
{
    let k = seq![AttrView::<A>::Known { inner, padding }];
    let u = seq![AttrView::<A>::Unknown { attr_type, value, padding }];
    assert(k.drop_last() =~= Seq::<AttrView<A>>::empty());
    assert(u.drop_last() =~= Seq::<AttrView<A>>::empty());
    assert(k.last() == AttrView::<A>::Known { inner, padding });
    assert(u.last() == AttrView::<A>::Unknown { attr_type, value, padding });
    assert(known_attrs(k.drop_last()).len() == 0);
    assert(unknown_attrs(k.drop_last()).len() == 0);
    assert(known_attrs(u.drop_last()).len() == 0);
    assert(unknown_attrs(u.drop_last()).len() == 0);
    assert(known_attrs(k) =~= seq![inner]);
    assert(unknown_attrs(u) =~= seq![(attr_type, value)]);
    assert(unknown_attrs(k) =~= Seq::<(u16, Seq<u8>)>::empty());
    assert(known_attrs(u) =~= Seq::<A>::empty());
    if s2.len() == 0 {
        assert(s1 + s2 =~= s1);
        assert(known_attrs(s1) + known_attrs(s2) =~= known_attrs(s1));
        assert(unknown_attrs(s1) + unknown_attrs(s2) =~= unknown_attrs(s1));
    } else {
        lemma_attribute_lists(s1, s2.drop_last(), inner, attr_type, value, padding);
        assert((s1 + s2).drop_last() =~= s1 + s2.drop_last());
        assert((s1 + s2).last() == s2.last());
        assert(known_attrs(s1) + known_attrs(s2.drop_last()).push(s2.last()->Known_inner) =~= (known_attrs(s1) + known_attrs(s2.drop_last())).push(s2.last()->Known_inner));
        assert(unknown_attrs(s1) + unknown_attrs(s2.drop_last()).push((s2.last()->Unknown_attr_type, s2.last()->Unknown_value)) =~= (unknown_attrs(s1) + unknown_attrs(s2.drop_last())).push((s2.last()->Unknown_attr_type, s2.last()->Unknown_value)));
    }
    lemma_attribute_counts(s1);
}

/// Every attribute is either a known one or a raw one.
proof fn lemma_attribute_counts<A>(s: Seq<AttrView<A>>)
    ensures
        known_attrs(s).len() + unknown_attrs(s).len() == s.len(),
    decreases s.len(),
{
    if s.len() > 0 {
        lemma_attribute_counts(s.drop_last());
    }
}

/// `m` with its attributes replaced by `attributes`.
pub open spec fn with_attributes<M, A>(m: MessageView<M, A>, attributes: Seq<AttrView<A>>) -> MessageView<M, A> {
    MessageView { class: m.class, method: m.method, transaction_id: m.transaction_id, attributes }
}

/// What the hook run before encoding does to one attribute, given the message
/// that holds the attributes before it: a known attribute runs its own hook,
/// a raw one stays as it is.
pub open spec fn attr_before_encode<M: Method, A: Attribute>(a: AttrView<A>, ctx: MessageView<M, A>) -> Result<AttrView<A>, ErrorKind> {
    match a {
        AttrView::Known { inner, padding } => match inner.spec_before_encode(ctx) {
            Ok(x) => Ok(AttrView::Known { inner: x, padding }),
            Err(e) => Err(e),
        },
        AttrView::Unknown { .. } => Ok(a),
    }
}

/// What the hook run after decoding does to one attribute, given the message
/// that holds the attributes before it.
pub open spec fn attr_after_decode<M: Method, A: Attribute>(a: AttrView<A>, ctx: MessageView<M, A>) -> Result<AttrView<A>, ErrorKind> {
    match a {
        AttrView::Known { inner, padding } => match inner.spec_after_decode(ctx) {
            Ok(x) => Ok(AttrView::Known { inner: x, padding }),
            Err(e) => Err(e),
        },
        AttrView::Unknown { .. } => Ok(a),
    }
}

/// The first `n` attributes of `m` after the hooks run before encoding, each
/// one seeing the message with the attributes before it as the hooks left them.
pub open spec fn before_encode_prefix<M: Method, A: Attribute>(m: MessageView<M, A>, n: nat) -> Result<Seq<AttrView<A>>, ErrorKind>
    decreases n,
{
    if n == 0 {
        Ok(Seq::empty())
    } else {
        match before_encode_prefix(m, (n - 1) as nat) {
            Err(e) => Err(e),
            Ok(done) => match attr_before_encode(m.attributes[n - 1], with_attributes(m, done)) {
                Err(e) => Err(e),
                Ok(a) => Ok(done.push(a)),
            },
        }
    }
}

/// The first `n` attributes of `m` after the hooks run after decoding.
pub open spec fn after_decode_prefix<M: Method, A: Attribute>(m: MessageView<M, A>, n: nat) -> Result<Seq<AttrView<A>>, ErrorKind>
    decreases n,
{
    if n == 0 {
        Ok(Seq::empty())
    } else {
        match after_decode_prefix(m, (n - 1) as nat) {
            Err(e) => Err(e),
            Ok(done) => match attr_after_decode(m.attributes[n - 1], with_attributes(m, done)) {
                Err(e) => Err(e),
                Ok(a) => Ok(done.push(a)),
            },
        }
    }
}

/// `m` after the hooks run before encoding; the first error a hook reports, if any.
pub open spec fn before_encode_all<M: Method, A: Attribute>(m: MessageView<M, A>) -> Result<MessageView<M, A>, ErrorKind> {
    match before_encode_prefix(m, m.attributes.len()) {
        Err(e) => Err(e),
        Ok(s) => Ok(with_attributes(m, s)),
    }
}

/// `m` after the hooks run after decoding; the first error a hook reports, if any.
pub open spec fn after_decode_all<M: Method, A: Attribute>(m: MessageView<M, A>) -> Result<MessageView<M, A>, ErrorKind> {
    match after_decode_prefix(m, m.attributes.len()) {
        Err(e) => Err(e),
        Ok(s) => Ok(with_attributes(m, s)),
    }
}

impl<M: Method, A: Attribute> Message<M, A> {
    /// Makes a message with no attributes.
    pub fn new(class: MessageClass, method: M, transaction_id: TransactionId) -> (r: Self)
        ensures
            r@ == (MessageView::<M, A> {
                class,
                method,
                transaction_id: transaction_id.spec_bytes(),
                attributes: Seq::empty(),
            }),
    {
        let r = Message { class, method, transaction_id, attributes: Vec::new() };
        assert(r@.attributes =~= Seq::empty());
        r
    }

    /// The class of the message.
    pub fn class(&self) -> (r: MessageClass)
        ensures
            r == self@.class,
    {
        self.class
    }

    /// The method of the message.
    pub fn method(&self) -> (r: &M)
        ensures
            *r == self@.method,
    {
        &self.method
    }

    /// The transaction id of the message.
    pub fn transaction_id(&self) -> (r: &TransactionId)
        ensures
            r.spec_bytes() == self@.transaction_id,
    {
        &self.transaction_id
    }

    /// The known attributes of the message, in order.
    pub fn attributes(&self) -> (r: Vec<&A>)
        ensures
            r@.len() == known_attrs(self@.attributes).len(),
            forall|i: int| 0 <= i < r@.len() ==> *r@[i] == known_attrs(self@.attributes)[i],
    {
        let mut r: Vec<&A> = Vec::new();
        let mut i: usize = 0;
        while i < self.attributes.len()
            invariant
                i <= self.attributes@.len(),
                r@.len() == known_attrs(self@.attributes.subrange(0, i as int)).len(),
                forall|j: int| 0 <= j < r@.len() ==> *r@[j] == known_attrs(self@.attributes.subrange(0, i as int))[j],
            decreases self.attributes@.len() - i,
        {
            proof {
                assert(self@.attributes.subrange(0, i + 1).drop_last() =~= self@.attributes.subrange(0, i as int));
            }
            if let Some(a) = self.attributes[i].as_known() {
                r.push(a);
            }
            i = i + 1;
        }
        assert(self@.attributes.subrange(0, i as int) =~= self@.attributes);
        r
    }

    /// The attributes of the message that are not known ones, in order.
    ///
    /// Whether any of them is one whose comprehension is required is for the
    /// caller to check.
    pub fn unknown_attributes(&self) -> (r: Vec<&RawAttribute>)
        ensures
            r@.len() == unknown_attrs(self@.attributes).len(),
            forall|i: int| 0 <= i < r@.len() ==> r@[i]@ == unknown_attrs(self@.attributes)[i],
    {
        let mut r: Vec<&RawAttribute> = Vec::new();
        let mut i: usize = 0;
        while i < self.attributes.len()
            invariant
                i <= self.attributes@.len(),
                r@.len() == unknown_attrs(self@.attributes.subrange(0, i as int)).len(),
                forall|j: int| 0 <= j < r@.len() ==> r@[j]@ == unknown_attrs(self@.attributes.subrange(0, i as int))[j],
            decreases self.attributes@.len() - i,
        {
            proof {
                assert(self@.attributes.subrange(0, i + 1).drop_last() =~= self@.attributes.subrange(0, i as int));
            }
            if let Some(a) = self.attributes[i].as_unknown() {
                r.push(a);
            }
            i = i + 1;
        }
        assert(self@.attributes.subrange(0, i as int) =~= self@.attributes);
        r
    }

    /// Makes a message from its parts.
    pub(crate) fn from_parts(
        class: MessageClass,
        method: M,
        transaction_id: TransactionId,
        attributes: Vec<LosslessAttribute<A>>,
    ) -> (r: Self)
        ensures
            r@ == (MessageView::<M, A> {
                class,
                method,
                transaction_id: transaction_id.spec_bytes(),
                attributes: attributes@.map_values(|a: LosslessAttribute<A>| a@),
            }),
    {
        Message { class, method, transaction_id, attributes }
    }

    /// The parts of the message.
    pub(crate) fn into_parts(self) -> (r: (MessageClass, M, TransactionId, Vec<LosslessAttribute<A>>))
        ensures
            r.0 == self@.class,
            r.1 == self@.method,
            r.2.spec_bytes() == self@.transaction_id,
            r.3@.map_values(|a: LosslessAttribute<A>| a@) == self@.attributes,
    {
        (self.class, self.method, self.transaction_id, self.attributes)
    }

    /// Adds `attribute` after the attributes that the message has.
    pub fn push_attribute(&mut self, attribute: A)
        ensures
            final(self)@ == with_attributes(old(self)@, old(self)@.attributes.push(AttrView::Known { inner: attribute, padding: None })),
    {
        self.attributes.push(LosslessAttribute::new(attribute));
        assert(final(self)@.attributes =~= old(self)@.attributes.push(AttrView::Known { inner: attribute, padding: None }));
    }
}

/// Whether `d` is what the hooks run before encoding make of the first `d.len()`
/// attributes of `m`: each known attribute is what its hook gives when it is
/// handed a message with the class, the method and the transaction id of `m`
/// and, as attributes, those before it in `d`; a raw attribute stays as it is.
pub open spec fn ran_before_encode<M: Method, A: Attribute>(m: MessageView<M, A>, d: Seq<AttrView<A>>) -> bool {
    &&& d.len() <= m.attributes.len()
    &&& forall|j: int|
        0 <= j < d.len() ==> match #[trigger] d[j] {
            AttrView::Known { inner: x, padding: p } => m.attributes[j] matches AttrView::Known { inner, padding } && p == padding
                && inner.spec_before_encode(
                (MessageView {
                    class: m.class,
                    method: m.method,
                    transaction_id: m.transaction_id,
                    attributes: d.subrange(0, j),
                }),
            ) == Ok::<A, ErrorKind>(x),
            AttrView::Unknown { .. } => d[j] == m.attributes[j],
        }
}

/// Whether, after the hooks made `d` of the first attributes of `m`, the hook
/// of the next attribute fails with `e` when handed a message with the class,
/// the method and the transaction id of `m` and the attributes `d`.
pub open spec fn hook_fails_before_encode<M: Method, A: Attribute>(m: MessageView<M, A>, d: Seq<AttrView<A>>, e: ErrorKind) -> bool {
    &&& d.len() < m.attributes.len()
    &&& m.attributes[d.len() as int] matches AttrView::Known { inner, .. } && inner.spec_before_encode(
        (MessageView { class: m.class, method: m.method, transaction_id: m.transaction_id, attributes: d }),
    ) == Err::<A, ErrorKind>(e)
}

proof fn lemma_before_encode_prefix_ran<M: Method, A: Attribute>(m: MessageView<M, A>, n: nat)
    requires
        n <= m.attributes.len(),
    ensures
        before_encode_prefix(m, n) matches Ok(d) ==> d.len() == n && ran_before_encode(m, d),
        before_encode_prefix(m, n) matches Err(e) ==> exists|d: Seq<AttrView<A>>| #[trigger] ran_before_encode(m, d) && hook_fails_before_encode(m, d, e),
    decreases n,
{
    if n == 0 {
        assert(ran_before_encode(m, Seq::<AttrView<A>>::empty()));
    } else {
        lemma_before_encode_prefix_ran(m, (n - 1) as nat);
        match before_encode_prefix(m, (n - 1) as nat) {
            Err(e) => {},
            Ok(d) => {
                let ctx = with_attributes(m, d);
                assert(d.subrange(0, d.len() as int) =~= d);
                match attr_before_encode(m.attributes[n - 1], ctx) {
                    Err(e) => {
                        assert(hook_fails_before_encode(m, d, e));
                    },
                    Ok(a) => {
                        let d2 = d.push(a);
                        assert forall|j: int| 0 <= j < d2.len() implies match #[trigger] d2[j] {
                            AttrView::Known { inner: x, padding: p } => m.attributes[j] matches AttrView::Known { inner, padding } && p == padding
                                && inner.spec_before_encode(
                                (MessageView {
                                    class: m.class,
                                    method: m.method,
                                    transaction_id: m.transaction_id,
                                    attributes: d2.subrange(0, j),
                                }),
                            ) == Ok::<A, ErrorKind>(x),
                            AttrView::Unknown { .. } => d2[j] == m.attributes[j],
                        } by {
                            if j < d.len() {
                                assert(d2[j] == d[j]);
                                assert(d2.subrange(0, j) =~= d.subrange(0, j));
                            } else {
                                assert(d2.subrange(0, j) =~= d);
                            }
                        }
                    },
                }
            },
        }
    }
}

/// Hooks before encoding: `before_encode_all` keeps the class, the method and the transaction id
/// of `m`; when it succeeds, each known attribute is what its hook gives when
/// handed a message with that class, method and transaction id and the
/// attributes before it as the hooks left them, and raw attributes stay; when
/// it fails, it is with the error of the first hook that fails, handed such a
/// message.
pub proof fn lemma_before_encode_hooks<M: Method, A: Attribute>(m: MessageView<M, A>)
    ensures
        match before_encode_all(m) {
            Ok(r) => r.class == m.class && r.method == m.method && r.transaction_id == m.transaction_id
                && r.attributes.len() == m.attributes.len() && ran_before_encode(m, r.attributes),
            Err(e) => exists|d: Seq<AttrView<A>>| #[trigger] ran_before_encode(m, d) && hook_fails_before_encode(m, d, e),
        },
{
    lemma_before_encode_prefix_ran(m, m.attributes.len());
}

/// Whether `d` is what the hooks run after decoding make of the first `d.len()`
/// attributes of `m`: each known attribute is what its hook gives when it is
/// handed a message with the class, the method and the transaction id of `m`
/// and, as attributes, those before it in `d`; a raw attribute stays as it is.
pub open spec fn ran_after_decode<M: Method, A: Attribute>(m: MessageView<M, A>, d: Seq<AttrView<A>>) -> bool {
    &&& d.len() <= m.attributes.len()
    &&& forall|j: int|
        0 <= j < d.len() ==> match #[trigger] d[j] {
            AttrView::Known { inner: x, padding: p } => m.attributes[j] matches AttrView::Known { inner, padding } && p == padding
                && inner.spec_after_decode(
                (MessageView {
                    class: m.class,
                    method: m.method,
                    transaction_id: m.transaction_id,
                    attributes: d.subrange(0, j),
                }),
            ) == Ok::<A, ErrorKind>(x),
            AttrView::Unknown { .. } => d[j] == m.attributes[j],
        }
}

/// Whether, after the hooks made `d` of the first attributes of `m`, the hook
/// of the next attribute fails with `e` when handed a message with the class,
/// the method and the transaction id of `m` and the attributes `d`.
pub open spec fn hook_fails_after_decode<M: Method, A: Attribute>(m: MessageView<M, A>, d: Seq<AttrView<A>>, e: ErrorKind) -> bool {
    &&& d.len() < m.attributes.len()
    &&& m.attributes[d.len() as int] matches AttrView::Known { inner, .. } && inner.spec_after_decode(
        (MessageView { class: m.class, method: m.method, transaction_id: m.transaction_id, attributes: d }),
    ) == Err::<A, ErrorKind>(e)
}

proof fn lemma_after_decode_prefix_ran<M: Method, A: Attribute>(m: MessageView<M, A>, n: nat)
    requires
        n <= m.attributes.len(),
    ensures
        after_decode_prefix(m, n) matches Ok(d) ==> d.len() == n && ran_after_decode(m, d),
        after_decode_prefix(m, n) matches Err(e) ==> exists|d: Seq<AttrView<A>>| #[trigger] ran_after_decode(m, d) && hook_fails_after_decode(m, d, e),
    decreases n,
{
    if n == 0 {
        assert(ran_after_decode(m, Seq::<AttrView<A>>::empty()));
    } else {
        lemma_after_decode_prefix_ran(m, (n - 1) as nat);
        match after_decode_prefix(m, (n - 1) as nat) {
            Err(e) => {},
            Ok(d) => {
                let ctx = with_attributes(m, d);
                assert(d.subrange(0, d.len() as int) =~= d);
                match attr_after_decode(m.attributes[n - 1], ctx) {
                    Err(e) => {
                        assert(hook_fails_after_decode(m, d, e));
                    },
                    Ok(a) => {
                        let d2 = d.push(a);
                        assert forall|j: int| 0 <= j < d2.len() implies match #[trigger] d2[j] {
                            AttrView::Known { inner: x, padding: p } => m.attributes[j] matches AttrView::Known { inner, padding } && p == padding
                                && inner.spec_after_decode(
                                (MessageView {
                                    class: m.class,
                                    method: m.method,
                                    transaction_id: m.transaction_id,
                                    attributes: d2.subrange(0, j),
                                }),
                            ) == Ok::<A, ErrorKind>(x),
                            AttrView::Unknown { .. } => d2[j] == m.attributes[j],
                        } by {
                            if j < d.len() {
                                assert(d2[j] == d[j]);
                                assert(d2.subrange(0, j) =~= d.subrange(0, j));
                            } else {
                                assert(d2.subrange(0, j) =~= d);
                            }
                        }
                    },
                }
            },
        }
    }
}

/// Hooks after decoding: `after_decode_all` keeps the class, the method and the transaction id
/// of `m`; when it succeeds, each known attribute is what its hook gives when
/// handed a message with that class, method and transaction id and the
/// attributes before it as the hooks left them, and raw attributes stay; when
/// it fails, it is with the error of the first hook that fails, handed such a
/// message.
pub proof fn lemma_after_decode_hooks<M: Method, A: Attribute>(m: MessageView<M, A>)
    ensures
        match after_decode_all(m) {
            Ok(r) => r.class == m.class && r.method == m.method && r.transaction_id == m.transaction_id
                && r.attributes.len() == m.attributes.len() && ran_after_decode(m, r.attributes),
            Err(e) => exists|d: Seq<AttrView<A>>| #[trigger] ran_after_decode(m, d) && hook_fails_after_decode(m, d, e),
        },
{
    lemma_after_decode_prefix_ran(m, m.attributes.len());
}

/// Once a hook run before encoding fails, the longer prefixes fail with the same error.
proof fn lemma_before_encode_prefix_err<M: Method, A: Attribute>(m: MessageView<M, A>, k: nat, n: nat)
    requires
        k <= n,
        before_encode_prefix(m, k) is Err,
    ensures
        before_encode_prefix(m, n) == before_encode_prefix(m, k),
    decreases n - k,
{
    if k < n {
        lemma_before_encode_prefix_err(m, k, (n - 1) as nat);
    }
}

/// Once a hook run after decoding fails, the longer prefixes fail with the same error.
proof fn lemma_after_decode_prefix_err<M: Method, A: Attribute>(m: MessageView<M, A>, k: nat, n: nat)
    requires
        k <= n,
        after_decode_prefix(m, k) is Err,
    ensures
        after_decode_prefix(m, n) == after_decode_prefix(m, k),
    decreases n - k,
{
    if k < n {
        lemma_after_decode_prefix_err(m, k, (n - 1) as nat);
    }
}

/// Runs the hook of each attribute before encoding, in order; each hook sees
/// the message with the attributes before it.
pub(crate) fn run_before_encode<M: Method, A: Attribute>(item: Message<M, A>) -> (r: Result<Message<M, A>, ErrorKind>)
    ensures
        match r {
            Ok(m) => before_encode_all(item@) == Ok::<MessageView<M, A>, ErrorKind>(m@),
            Err(e) => before_encode_all(item@) == Err::<MessageView<M, A>, ErrorKind>(e),
        },
{
    let ghost orig = item@;
    let mut message = item;
    let mut pending: Vec<LosslessAttribute<A>> = Vec::new();
    std::mem::swap(&mut pending, &mut message.attributes);
    let n = pending.len();
    let mut i: usize = 0;
    assert(pending@.map_values(|a: LosslessAttribute<A>| a@) =~= orig.attributes);
    assert(message@.attributes =~= Seq::<AttrView<A>>::empty());
    while i < n
        invariant
            i <= n == orig.attributes.len(),
            pending@.len() == n - i,
            forall|j: int| 0 <= j < n - i ==> #[trigger] pending@[j]@ == orig.attributes[i + j],
            item@ == orig,
            message@.class == orig.class,
            message@.method == orig.method,
            message@.transaction_id == orig.transaction_id,
            before_encode_prefix(orig, i as nat) == Ok::<Seq<AttrView<A>>, ErrorKind>(message@.attributes),
        decreases n - i,
    {
        let ghost before = pending@;
        let attr = pending.remove(0);
        assert(attr@ == orig.attributes[i as int]);
        assert(with_attributes(orig, message@.attributes) == message@);
        let attr = match attr {
            LosslessAttribute::Known { inner, padding } => {
                let mut inner = inner;
                match inner.before_encode(&message) {
                    Ok(_) => {},
                    Err(e) => {
                        proof {
                            assert(before_encode_prefix(orig, (i + 1) as nat) == Err::<Seq<AttrView<A>>, ErrorKind>(e));
                            lemma_before_encode_prefix_err(orig, (i + 1) as nat, n as nat);
                            assert(before_encode_all(orig) == Err::<MessageView<M, A>, ErrorKind>(e));
                        }
                        return Err(e);
                    },
                }
                LosslessAttribute::Known { inner, padding }
            },
            LosslessAttribute::Unknown { inner, padding } => LosslessAttribute::Unknown { inner, padding },
        };
        let ghost prev = message@.attributes;
        message.attributes.push(attr);
        i = i + 1;
        assert(message@.attributes =~= prev.push(attr@));
        assert forall|j: int| 0 <= j < n - i implies #[trigger] pending@[j]@ == orig.attributes[i + j] by {
            assert(pending@[j] == before[j + 1]);
        }
    }
    assert(message@ =~= with_attributes(orig, message@.attributes));
    Ok(message)
}

/// Runs the hook of each attribute after decoding, in order; each hook sees
/// the message with the attributes before it.
pub(crate) fn run_after_decode<M: Method, A: Attribute>(item: Message<M, A>) -> (r: Result<Message<M, A>, ErrorKind>)
    ensures
        match r {
            Ok(m) => after_decode_all(item@) == Ok::<MessageView<M, A>, ErrorKind>(m@),
            Err(e) => after_decode_all(item@) == Err::<MessageView<M, A>, ErrorKind>(e),
        },
{
    let ghost orig = item@;
    let mut message = item;
    let mut pending: Vec<LosslessAttribute<A>> = Vec::new();
    std::mem::swap(&mut pending, &mut message.attributes);
    let n = pending.len();
    let mut i: usize = 0;
    assert(pending@.map_values(|a: LosslessAttribute<A>| a@) =~= orig.attributes);
    assert(message@.attributes =~= Seq::<AttrView<A>>::empty());
    while i < n
        invariant
            i <= n == orig.attributes.len(),
            pending@.len() == n - i,
            forall|j: int| 0 <= j < n - i ==> #[trigger] pending@[j]@ == orig.attributes[i + j],
            item@ == orig,
            message@.class == orig.class,
            message@.method == orig.method,
            message@.transaction_id == orig.transaction_id,
            after_decode_prefix(orig, i as nat) == Ok::<Seq<AttrView<A>>, ErrorKind>(message@.attributes),
        decreases n - i,
    {
        let ghost before = pending@;
        let attr = pending.remove(0);
        assert(attr@ == orig.attributes[i as int]);
        assert(with_attributes(orig, message@.attributes) == message@);
        let attr = match attr {
            LosslessAttribute::Known { inner, padding } => {
                let mut inner = inner;
                match inner.after_decode(&message) {
                    Ok(_) => {},
                    Err(e) => {
                        proof {
                            assert(after_decode_prefix(orig, (i + 1) as nat) == Err::<Seq<AttrView<A>>, ErrorKind>(e));
                            lemma_after_decode_prefix_err(orig, (i + 1) as nat, n as nat);
                            assert(after_decode_all(orig) == Err::<MessageView<M, A>, ErrorKind>(e));
                        }
                        return Err(e);
                    },
                }
                LosslessAttribute::Known { inner, padding }
            },
            LosslessAttribute::Unknown { inner, padding } => LosslessAttribute::Unknown { inner, padding },
        };
        let ghost prev = message@.attributes;
        message.attributes.push(attr);
        i = i + 1;
        assert(message@.attributes =~= prev.push(attr@));
        assert forall|j: int| 0 <= j < n - i implies #[trigger] pending@[j]@ == orig.attributes[i + j] by {
            assert(pending@[j] == before[j + 1]);
        }
    }
    assert(message@ =~= with_attributes(orig, message@.attributes));
    Ok(message)
}

} // verus!
