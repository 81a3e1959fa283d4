use vstd::prelude::*;

use crate::num::dec_int;

verus! {

/// Mathematical form of a wire value: payloads as byte sequences and
/// unbounded integers, so that contracts are stated over `Seq` and `int`.
#[verifier::ext_equal]
pub enum ValueModel {
    Null,
    SimpleString(Seq<u8>),
    BulkString(Seq<u8>),
    Array(Seq<ValueModel>),
    Error(Seq<u8>),
    Integer(int),
    Boolean(bool),
}

/// A wire-representable value of the protocol. String payloads are kept as
/// raw bytes: the framing is byte-exact and payloads need no text structure.
#[derive(Debug, PartialEq)]
pub enum Value {
    Null,
    SimpleString(Vec<u8>),
    BulkString(Vec<u8>),
    Array(Vec<Value>),
    Error(Vec<u8>),
    Integer(i64),
    Boolean(bool),
}

/// The model of one value.
pub open spec fn value_model(v: Value) -> ValueModel
    decreases v,
{
    match v {
        Value::Null => ValueModel::Null,
        Value::SimpleString(s) => ValueModel::SimpleString(s@),
        Value::BulkString(s) => ValueModel::BulkString(s@),
        Value::Error(s) => ValueModel::Error(s@),
        Value::Integer(i) => ValueModel::Integer(i as int),
        Value::Boolean(b) => ValueModel::Boolean(b),
        Value::Array(items) => ValueModel::Array(value_models(items@)),
    }
}

/// The models of a sequence of values, elementwise.
pub open spec fn value_models(s: Seq<Value>) -> Seq<ValueModel>
    decreases s,
{
    if s.len() == 0 {
        Seq::empty()
    } else {
        value_models(s.drop_last()).push(value_model(s.last()))
    }
}

impl View for Value {
    type V = ValueModel;

    open spec fn view(&self) -> ValueModel {
        value_model(*self)
    }
}

pub proof fn lemma_value_models(s: Seq<Value>)
    ensures
        value_models(s).len() == s.len(),
        forall|i: int| 0 <= i < s.len() ==> value_models(s)[i] == value_model(s[i]),
    decreases s,
{
    if s.len() > 0 {
        lemma_value_models(s.drop_last());
    }
}

/// The carriage-return/line-feed pair that terminates every frame part.
pub open spec fn crlf() -> Seq<u8> {
    seq![13u8, 10u8]
}

/// The wire form of a value, as laid down by the protocol: a one-byte type
/// tag, then the payload, with CRLF-terminated parts and decimal prefixes.
pub open spec fn spec_serialize(v: ValueModel) -> Seq<u8>
    decreases v,
{
    match v {
        ValueModel::Null => seq![36u8, 45u8, 49u8] + crlf(),
        ValueModel::SimpleString(s) => seq![43u8] + s + crlf(),
        ValueModel::Error(s) => seq![45u8] + s + crlf(),
        ValueModel::Integer(i) => seq![58u8] + dec_int(i) + crlf(),
        ValueModel::Boolean(b) => seq![35u8, if b { 116u8 } else { 102u8 }] + crlf(),
        ValueModel::BulkString(s) => seq![36u8] + dec_int(s.len() as int) + crlf() + s + crlf(),
        ValueModel::Array(items) => seq![42u8] + dec_int(items.len() as int) + crlf()
            + spec_serialize_elems(items),
    }
}

/// The concatenated wire forms of the elements of an array, in order.
pub open spec fn spec_serialize_elems(items: Seq<ValueModel>) -> Seq<u8>
    decreases items,
{
    if items.len() == 0 {
        Seq::empty()
    } else {
        spec_serialize(items[0]) + spec_serialize_elems(items.drop_first())
    }
}

pub proof fn lemma_serialize_elems_concat(a: Seq<ValueModel>, b: Seq<ValueModel>)
    ensures
        spec_serialize_elems(a + b) == spec_serialize_elems(a) + spec_serialize_elems(b),
    decreases a,
{
    if a.len() == 0 {
        assert(a + b =~= b);
        assert(spec_serialize_elems(Seq::<ValueModel>::empty()) + spec_serialize_elems(b)
            =~= spec_serialize_elems(b));
    } else {
        assert((a + b).drop_first() =~= a.drop_first() + b);
        assert((a + b)[0] == a[0]);
        lemma_serialize_elems_concat(a.drop_first(), b);
        assert(spec_serialize(a[0]) + (spec_serialize_elems(a.drop_first())
            + spec_serialize_elems(b)) =~= (spec_serialize(a[0])
            + spec_serialize_elems(a.drop_first())) + spec_serialize_elems(b));
    }
}

pub proof fn lemma_serialize_elems_singleton(m: ValueModel)
    ensures
        spec_serialize_elems(seq![m]) == spec_serialize(m),
{
    assert(seq![m].drop_first() =~= Seq::<ValueModel>::empty());
    assert(spec_serialize_elems(Seq::<ValueModel>::empty()) =~= Seq::<u8>::empty());
    assert(spec_serialize_elems(seq![m]) =~= spec_serialize(m));
}

pub proof fn lemma_serialize_elems_snoc(items: Seq<ValueModel>, i: int)
    requires
        0 <= i < items.len(),
    ensures
        spec_serialize_elems(items.take(i + 1)) == spec_serialize_elems(items.take(i))
            + spec_serialize(items[i]),
{
    assert(items.take(i + 1) =~= items.take(i) + seq![items[i]]);
    lemma_serialize_elems_concat(items.take(i), seq![items[i]]);
    lemma_serialize_elems_singleton(items[i]);
}

/// A carriage-return/line-feed pair occurs somewhere in `s`.
pub open spec fn has_crlf(s: Seq<u8>) -> bool {
    exists|i: int| 0 <= i && i + 1 < s.len() && #[trigger] s[i] == 13 && s[i + 1] == 10
}

/// A value whose wire form reads back as the same value. Only values that
/// hide a CRLF pair inside an unframed line, or whose size the wire format's
/// 64-bit prefixes cannot carry, fall outside it.
pub open spec fn value_wf(v: ValueModel) -> bool
    decreases v,
{
    match v {
        ValueModel::Null => true,
        ValueModel::Boolean(_) => true,
        ValueModel::SimpleString(s) => !has_crlf(s),
        ValueModel::Error(s) => !has_crlf(s),
        ValueModel::Integer(i) => i64::MIN <= i <= i64::MAX,
        ValueModel::BulkString(s) => s.len() <= i64::MAX,
        ValueModel::Array(items) => items.len() <= i64::MAX && (forall|i: int|
            0 <= i < items.len() ==> value_wf(#[trigger] items[i])),
    }
}

/// Byte-for-byte equality of two byte slices.
pub fn bytes_eq(a: &[u8], b: &[u8]) -> (r: bool)
    ensures
        r == (a@ == b@),
{
    if a.len() != b.len() {
        return false;
    }
    let n = a.len();
    let mut i: usize = 0;
    while i < n
        invariant
            i <= n,
            n == a@.len() == b@.len(),
            forall|j: int| 0 <= j < i ==> a@[j] == b@[j],
        decreases n - i,
    {
        if a[i] != b[i] {
            proof {
                assert(a@[i as int] != b@[i as int]);
            }
            return false;
        }
        i = i + 1;
    }
    proof {
        assert(a@ =~= b@);
    }
    true
}

/// Copies a byte vector.
pub fn clone_bytes(v: &Vec<u8>) -> (r: Vec<u8>)
    ensures
        r@ == v@,
{
    let mut r: Vec<u8> = Vec::new();
    let mut i: usize = 0;
    while i < v.len()
        invariant
            i <= v@.len(),
            r@ == v@.take(i as int),
        decreases v@.len() - i,
    {
        r.push(v[i]);
        proof {
            assert(v@.take(i as int).push(v@[i as int]) =~= v@.take(i + 1));
        }
        i = i + 1;
    }
    proof {
        assert(v@.take(v@.len() as int) =~= v@);
    }
    r
}

impl Value {
    /// The wire bytes of this value; serialization is total.
    pub fn serialize(&self) -> (out: Vec<u8>)
        ensures
            out@ == spec_serialize(self@),
    {
        let mut out: Vec<u8> = Vec::new();
        self.write_bytes(&mut out);
        out
    }

    /// Appends the wire bytes of this value to `out`.
    #[verifier::loop_isolation(false)]
    fn write_bytes(&self, out: &mut Vec<u8>)
        ensures
            final(out)@ == old(out)@ + spec_serialize(value_model(*self)),
        decreases *self,
    {
        match self {
            Value::Null => {
                out.push(36);
                out.push(45);
                out.push(49);
                out.push(13);
                out.push(10);
                assert(final(out)@ =~= old(out)@ + spec_serialize(value_model(*self)));
            },
            Value::SimpleString(s) => {
                out.push(43);
                append_bytes(out, s);
                out.push(13);
                out.push(10);
                assert(final(out)@ =~= old(out)@ + spec_serialize(value_model(*self)));
            },
            Value::Error(s) => {
                out.push(45);
                append_bytes(out, s);
                out.push(13);
                out.push(10);
                assert(final(out)@ =~= old(out)@ + spec_serialize(value_model(*self)));
            },
            Value::Integer(i) => {
                out.push(58);
                crate::num::push_dec_i64(*i, out);
                out.push(13);
                out.push(10);
                assert(final(out)@ =~= old(out)@ + spec_serialize(value_model(*self)));
            },
            Value::Boolean(b) => {
                out.push(35);
                out.push(if *b { 116 } else { 102 });
                out.push(13);
                out.push(10);
                assert(final(out)@ =~= old(out)@ + spec_serialize(value_model(*self)));
            },
            Value::BulkString(s) => {
                out.push(36);
                crate::num::push_dec_u64(s.len() as u64, out);
                out.push(13);
                out.push(10);
                append_bytes(out, s);
                out.push(13);
                out.push(10);
                proof {
                    assert(dec_int(s@.len() as int) == crate::num::dec_digits(s@.len() as nat));
                    assert(final(out)@ =~= old(out)@ + spec_serialize(value_model(*self)));
                }
            },
            Value::Array(items) => {
                out.push(42);
                crate::num::push_dec_u64(items.len() as u64, out);
                out.push(13);
                out.push(10);
                let ghost models = value_models(items@);
                let ghost header = old(out)@ + seq![42u8] + dec_int(models.len() as int)
                    + crlf();
                proof {
                    lemma_value_models(items@);
                    assert(dec_int(models.len() as int)
                        == crate::num::dec_digits(models.len() as nat));
                    assert(out@ =~= header);
                    assert(models.take(0) =~= Seq::<ValueModel>::empty());
                }
                let n = items.len();
                let mut i: usize = 0;
                while i < n
                    invariant
                        n == items@.len(),
                        i <= n,
                        models == value_models(items@),
                        models.len() == n,
                        forall|k: int| 0 <= k < n ==> models[k] == value_model(items@[k]),
                        out@ == header + spec_serialize_elems(models.take(i as int)),
                    decreases n - i,
                {
                    proof {
                        assert(*self == Value::Array(*items));
                        assert(decreases_to!(*self => self->Array_0));
                        assert(decreases_to!(*items => items@));
                        assert(decreases_to!(items@ => items@[i as int]));
                    }
                    items[i].write_bytes(out);
                    proof {
                        lemma_serialize_elems_snoc(models, i as int);
                        assert(out@ =~= header
                            + spec_serialize_elems(models.take(i + 1)));
                    }
                    i = i + 1;
                }
                proof {
                    assert(models.take(n as int) =~= models);
                    assert(final(out)@ =~= old(out)@ + spec_serialize(value_model(*self)));
                }
            },
        }
    }

    /// A structurally equal copy of this value.
    #[verifier::loop_isolation(false)]
    pub fn duplicate(&self) -> (r: Value)
        ensures
            r@ == self@,
        decreases *self,
    {
        match self {
            Value::Null => Value::Null,
            Value::SimpleString(s) => Value::SimpleString(clone_bytes(s)),
            Value::BulkString(s) => Value::BulkString(clone_bytes(s)),
            Value::Error(s) => Value::Error(clone_bytes(s)),
            Value::Integer(i) => Value::Integer(*i),
            Value::Boolean(b) => Value::Boolean(*b),
            Value::Array(items) => {
                let n = items.len();
                let mut copy: Vec<Value> = Vec::new();
                let mut i: usize = 0;
                while i < n
                    invariant
                        n == items@.len(),
                        i <= n,
                        copy@.len() == i,
                        forall|k: int| 0 <= k < i
                            ==> value_model(#[trigger] copy@[k]) == value_model(items@[k]),
                    decreases n - i,
                {
                    proof {
                        assert(*self == Value::Array(*items));
                        assert(decreases_to!(*self => self->Array_0));
                        assert(decreases_to!(*items => items@));
                        assert(decreases_to!(items@ => items@[i as int]));
                    }
                    let c = items[i].duplicate();
                    copy.push(c);
                    i = i + 1;
                }
                proof {
                    lemma_value_models(items@);
                    lemma_value_models(copy@);
                    assert(value_models(copy@) =~= value_models(items@));
                }
                Value::Array(copy)
            },
        }
    }
}

/// A lower-case ASCII letter mapped to upper case; all else unchanged.
pub open spec fn upper_byte(b: u8) -> u8 {
    if 97 <= b <= 122 {
        (b - 32) as u8
    } else {
        b
    }
}

pub open spec fn upper_bytes(s: Seq<u8>) -> Seq<u8> {
    Seq::new(s.len(), |i: int| upper_byte(s[i]))
}

/// The byte views of a sequence of byte vectors, elementwise.
pub open spec fn bytes_views(s: Seq<Vec<u8>>) -> Seq<Seq<u8>> {
    Seq::new(s.len(), |i: int| s[i]@)
}

/// The string payloads among `es`, in order; other elements are dropped.
pub open spec fn string_args(es: Seq<ValueModel>) -> Seq<Seq<u8>>
    decreases es,
{
    if es.len() == 0 {
        Seq::empty()
    } else {
        let rest = string_args(es.drop_last());
        match es.last() {
            ValueModel::SimpleString(s) => rest.push(s),
            ValueModel::BulkString(s) => rest.push(s),
            _ => rest,
        }
    }
}

/// The command a value stands for: a non-empty array whose first element is
/// a string gives the upper-cased name and the later string elements as
/// arguments; every other shape gives nothing.
pub open spec fn spec_to_command(v: ValueModel) -> Option<(Seq<u8>, Seq<Seq<u8>>)> {
    match v {
        ValueModel::Array(es) => {
            if es.len() == 0 {
                None
            } else {
                match es[0] {
                    ValueModel::SimpleString(s) => Some(
                        (upper_bytes(s), string_args(es.drop_first())),
                    ),
                    ValueModel::BulkString(s) => Some(
                        (upper_bytes(s), string_args(es.drop_first())),
                    ),
                    _ => None,
                }
            }
        },
        _ => None,
    }
}

/// Maps ASCII lower-case letters of `v` to upper case.
pub fn to_upper(v: &[u8]) -> (r: Vec<u8>)
    ensures
        r@ == upper_bytes(v@),
{
    let mut r: Vec<u8> = Vec::new();
    let mut i: usize = 0;
    while i < v.len()
        invariant
            i <= v@.len(),
            r@ == upper_bytes(v@).take(i as int),
        decreases v@.len() - i,
    {
        let b = v[i];
        if 97 <= b && b <= 122 {
            r.push(b - 32);
        } else {
            r.push(b);
        }
        proof {
            assert(upper_bytes(v@).take(i as int).push(upper_byte(v@[i as int]))
                =~= upper_bytes(v@).take(i + 1));
        }
        i = i + 1;
    }
    proof {
        assert(upper_bytes(v@).take(v@.len() as int) =~= upper_bytes(v@));
    }
    r
}

impl Value {
    /// Reads this value as a command request, when it has that shape.
    #[verifier::loop_isolation(false)]
    pub fn to_command(&self) -> (r: Option<(Vec<u8>, Vec<Vec<u8>>)>)
        ensures
            match r {
                Some((name, args)) => spec_to_command(self@) == Some(
                    (name@, bytes_views(args@)),
                ),
                None => spec_to_command(self@) is None,
            },
    {
        match self {
            Value::Array(elements) => {
                if elements.len() == 0 {
                    return None;
                }
                let ghost ms = value_models(elements@);
                proof {
                    lemma_value_models(elements@);
                }
                let name0: &Vec<u8> = match &elements[0] {
                    Value::SimpleString(s) => s,
                    Value::BulkString(s) => s,
                    _ => {
                        return None;
                    },
                };
                let name = to_upper(name0.as_slice());
                let mut args: Vec<Vec<u8>> = Vec::new();
                let n = elements.len();
                let mut i: usize = 1;
                proof {
                    assert(ms.drop_first().take(0) =~= Seq::<ValueModel>::empty());
                    assert(bytes_views(args@) =~= Seq::<Seq<u8>>::empty());
                }
                while i < n
                    invariant
                        1 <= i <= n,
                        bytes_views(args@) == string_args(ms.drop_first().take(i - 1)),
                    decreases n - i,
                {
                    let ghost args_pre = args@;
                    match &elements[i] {
                        Value::SimpleString(s) => {
                            args.push(clone_bytes(s));
                        },
                        Value::BulkString(s) => {
                            args.push(clone_bytes(s));
                        },
                        _ => {},
                    }
                    proof {
                        assert(ms.drop_first().take(i - 1 + 1).drop_last()
                            =~= ms.drop_first().take(i - 1));
                        assert(ms.drop_first().take(i - 1 + 1).last() == ms[i as int]);
                        if args@.len() > args_pre.len() {
                            assert(bytes_views(args@) =~= bytes_views(args_pre)
                                .push(args@.last()@));
                        } else {
                            assert(bytes_views(args@) =~= bytes_views(args_pre));
                        }
                    }
                    i = i + 1;
                }
                proof {
                    assert(ms.drop_first().take(n - 1) =~= ms.drop_first());
                }
                Some((name, args))
            },
            _ => None,
        }
    }
}

/// Appends all of `s` to `out`.
pub fn append_bytes(out: &mut Vec<u8>, s: &Vec<u8>)
    ensures
        final(out)@ == old(out)@ + s@,
{
    let mut i: usize = 0;
    while i < s.len()
        invariant
            i <= s@.len(),
            out@ == old(out)@ + s@.take(i as int),
        decreases s@.len() - i,
    {
        out.push(s[i]);
        proof {
            assert((old(out)@ + s@.take(i as int)).push(s@[i as int])
                =~= old(out)@ + s@.take(i + 1));
        }
        i = i + 1;
    }
    proof {
        assert(s@.take(s@.len() as int) =~= s@);
    }
}

} // verus!
