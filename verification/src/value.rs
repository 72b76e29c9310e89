//! The decoded value tree, its errors, and their mathematical models.

use crate::model::{SpecError, SpecValue};
use vstd::prelude::*;

verus! {

broadcast use vstd::seq::group_seq_axioms, vstd::std_specs::vec::group_vec_axioms;

/// A contiguous sub-range of the input buffer: the zero-copy view by which a
/// byte-string payload is kept without copying it out of the buffer.
#[derive(Debug, Clone, Copy, PartialEq, Eq, Structural)]
pub struct Span {
    pub start: usize,
    pub len: usize,
}

/// The bytes a span denotes within the buffer `buf`.
pub open spec fn span_bytes(sp: Span, buf: Seq<u8>) -> Seq<u8> {
    buf.subrange(sp.start as int, sp.start + sp.len)
}

impl Span {
    /// Lies inside a buffer of length `len`, and is never empty: the grammar
    /// rejects a declared byte-string length of zero.
    pub open spec fn wf(self, len: int) -> bool {
        self.start + self.len <= len && self.len > 0
    }
}

/// A decoded Bencode value.  Byte strings borrow from the input buffer by
/// span; a dictionary is kept as its entries, with key texts unique.
#[derive(Debug, PartialEq, Eq)]
pub enum Value {
    Bytes(Span),
    Integer(i64),
    List(Vec<Value>),
    Dictionary(Vec<(Span, Value)>),
}

/// What a sequence of list elements denotes against `buf`.
pub open spec fn list_model(vs: Seq<Value>, buf: Seq<u8>) -> Seq<SpecValue>
    decreases vs,
{
    if vs.len() == 0 {
        Seq::empty()
    } else {
        list_model(vs.drop_last(), buf).push(vs.last().model(buf))
    }
}

/// What a sequence of dictionary entries denotes against `buf`: the mapping
/// built by inserting the entries in order, so a later entry with an equal
/// key text replaces an earlier one.
pub open spec fn dict_model(es: Seq<(Span, Value)>, buf: Seq<u8>) -> Map<Seq<u8>, SpecValue>
    decreases es,
{
    if es.len() == 0 {
        Map::empty()
    } else {
        dict_model(es.drop_last(), buf).insert(
            span_bytes(es.last().0, buf),
            es.last().1.model(buf),
        )
    }
}

impl Value {
    /// The mathematical value this tree denotes against the buffer `buf`.
    pub open spec fn model(self, buf: Seq<u8>) -> SpecValue
        decreases self,
    {
        match self {
            Value::Bytes(sp) => SpecValue::Bytes(span_bytes(sp, buf)),
            Value::Integer(n) => SpecValue::Integer(n as int),
            Value::List(items) => SpecValue::List(list_model(items@, buf)),
            Value::Dictionary(entries) => SpecValue::Dictionary(dict_model(entries@, buf)),
        }
    }

    /// Well-formed against the buffer `buf`: every span lies inside the
    /// buffer and is nonempty, and the key texts of a dictionary are unique.
    pub open spec fn wf(self, buf: Seq<u8>) -> bool
        decreases self,
    {
        match self {
            Value::Bytes(sp) => sp.wf(buf.len() as int),
            Value::Integer(_) => true,
            Value::List(items) => forall|i: int|
                0 <= i < items@.len() ==> (#[trigger] items@[i]).wf(buf),
            Value::Dictionary(entries) => {
                &&& forall|i: int|
                    0 <= i < entries@.len() ==> (#[trigger] entries@[i]).0.wf(buf.len() as int)
                        && entries@[i].1.wf(buf)
                &&& forall|i: int, j: int|
                    0 <= i < j < entries@.len() ==> span_bytes(
                        (#[trigger] entries@[i]).0,
                        buf,
                    ) != span_bytes((#[trigger] entries@[j]).0, buf)
            },
        }
    }

    /// The payload of a `Bytes` value, resolved against the input buffer, or
    /// `None` when this is not a well-formed byte-string view of that buffer.
    pub fn bytes_of<'a>(&self, input: &'a [u8]) -> (r: Option<&'a [u8]>)
        ensures
            match r {
                Some(b) => *self matches Value::Bytes(sp) && sp.wf(input@.len() as int) && b@
                    == span_bytes(sp, input@),
                None => match *self {
                    Value::Bytes(sp) => !sp.wf(input@.len() as int),
                    _ => true,
                },
            },
    {
        match self {
            Value::Bytes(sp) => {
                if sp.len > 0 && sp.start <= input.len() && sp.len <= input.len() - sp.start {
                    Some(vstd::slice::slice_subrange(input, sp.start, sp.start + sp.len))
                } else {
                    None
                }
            },
            _ => None,
        }
    }

    /// Dictionary lookup under the last-write-wins mapping the entries
    /// denote: the value bound to `key`, or `None` when this is not a
    /// dictionary or the key is unbound.
    pub fn lookup<'a>(&'a self, input: &[u8], key: &[u8]) -> (r: Option<&'a Value>)
        requires
            self.wf(input@),
        ensures
            match r {
                Some(v) => *self matches Value::Dictionary(es) && dict_model(
                    es@,
                    input@,
                ).contains_key(key@) && v.model(input@) == dict_model(es@, input@)[key@],
                None => match *self {
                    Value::Dictionary(es) => !dict_model(es@, input@).contains_key(key@),
                    _ => true,
                },
            },
    {
        match self {
            Value::Dictionary(entries) => dict_find(input, entries, key),
            _ => None,
        }
    }
}

/// Whether a span of the buffer holds exactly the bytes of `key`.
fn span_matches_key(input: &[u8], sp: Span, key: &[u8]) -> (r: bool)
    requires
        sp.wf(input@.len() as int),
    ensures
        r == (span_bytes(sp, input@) == key@),
{
    if sp.len != key.len() {
        assert(span_bytes(sp, input@).len() != key@.len());
        return false;
    }
    let n = input.len();
    let mut k: usize = 0;
    while k < sp.len
        invariant
            sp.wf(input@.len() as int),
            n == input@.len(),
            k <= sp.len,
            sp.len == key@.len(),
            forall|m: int| 0 <= m < k ==> span_bytes(sp, input@)[m] == key@[m],
        decreases sp.len - k,
    {
        assert(sp.start + k < n);
        if input[sp.start + k] != key[k] {
            assert(span_bytes(sp, input@)[k as int] != key@[k as int]);
            return false;
        }
        k += 1;
    }
    proof {
        assert(span_bytes(sp, input@) =~= key@);
    }
    true
}

/// Whether two spans of the same buffer hold the same bytes.
pub(crate) fn spans_eq(input: &[u8], a: Span, b: Span) -> (r: bool)
    requires
        a.wf(input@.len() as int),
        b.wf(input@.len() as int),
    ensures
        r == (span_bytes(a, input@) == span_bytes(b, input@)),
{
    let n = input.len();
    assert(b.start + b.len <= n);
    let kb = vstd::slice::slice_subrange(input, b.start, b.start + b.len);
    span_matches_key(input, a, kb)
}

/// Backward scan of the entries: the value of the last entry whose key text
/// equals `key`, which is what the last-write-wins mapping binds to it.
fn dict_find<'a>(input: &[u8], entries: &'a Vec<(Span, Value)>, key: &[u8]) -> (r: Option<
    &'a Value,
>)
    requires
        forall|i: int|
            0 <= i < entries@.len() ==> (#[trigger] entries@[i]).0.wf(input@.len() as int),
    ensures
        match r {
            Some(v) => dict_model(entries@, input@).contains_key(key@) && v.model(input@)
                == dict_model(entries@, input@)[key@],
            None => !dict_model(entries@, input@).contains_key(key@),
        },
{
    let ghost s = input@;
    let ghost full = dict_model(entries@, s);
    let mut i = entries.len();
    proof {
        assert(entries@.take(entries@.len() as int) =~= entries@);
    }
    while i > 0
        invariant
            i <= entries@.len(),
            forall|m: int|
                0 <= m < entries@.len() ==> (#[trigger] entries@[m]).0.wf(input@.len() as int),
            s == input@,
            full == dict_model(entries@, s),
            full.contains_key(key@) == dict_model(entries@.take(i as int), s).contains_key(key@),
            full.contains_key(key@) ==> full[key@] == dict_model(entries@.take(i as int), s)[key@],
        decreases i,
    {
        let j = i - 1;
        let sp = entries[j].0;
        proof {
            lemma_dict_model_take_step(entries@, s, i as int);
        }
        if span_matches_key(input, sp, key) {
            return Some(&entries[j].1);
        }
        i = j;
    }
    proof {
        assert(entries@.take(0) =~= Seq::<(Span, Value)>::empty());
        assert(!dict_model(entries@.take(0), s).contains_key(key@));
    }
    None
}

/// Unfolds the entry mapping one entry at a time from the end.
pub proof fn lemma_dict_model_take_step(es: Seq<(Span, Value)>, buf: Seq<u8>, i: int)
    requires
        0 < i <= es.len(),
    ensures
        dict_model(es.take(i), buf) == dict_model(es.take(i - 1), buf).insert(
            span_bytes(es[i - 1].0, buf),
            es[i - 1].1.model(buf),
        ),
{
    assert(es.take(i).drop_last() =~= es.take(i - 1));
    assert(es.take(i).last() == es[i - 1]);
}

/// Appending an entry inserts its binding into the mapping.
pub proof fn lemma_dict_model_push(es: Seq<(Span, Value)>, buf: Seq<u8>, e: (Span, Value))
    ensures
        dict_model(es.push(e), buf) == dict_model(es, buf).insert(
            span_bytes(e.0, buf),
            e.1.model(buf),
        ),
{
    assert(es.push(e).drop_last() =~= es);
    assert(es.push(e).last() == e);
}

/// Appending an element appends its model.
pub proof fn lemma_list_model_push(vs: Seq<Value>, buf: Seq<u8>, v: Value)
    ensures
        list_model(vs.push(v), buf) == list_model(vs, buf).push(v.model(buf)),
{
    assert(vs.push(v).drop_last() =~= vs);
    assert(vs.push(v).last() == v);
}

/// Replacing the one entry whose key text equals the new entry's key text
/// changes the mapping exactly as inserting the new binding does.
pub proof fn lemma_dict_model_update(es: Seq<(Span, Value)>, buf: Seq<u8>, i: int, e: (Span, Value))
    requires
        0 <= i < es.len(),
        span_bytes(e.0, buf) == span_bytes(es[i].0, buf),
        forall|a: int, b: int|
            0 <= a < b < es.len() ==> span_bytes((#[trigger] es[a]).0, buf) != span_bytes(
                (#[trigger] es[b]).0,
                buf,
            ),
    ensures
        dict_model(es.update(i, e), buf) == dict_model(es, buf).insert(
            span_bytes(e.0, buf),
            e.1.model(buf),
        ),
    decreases es.len(),
{
    let k = span_bytes(e.0, buf);
    let up = es.update(i, e);
    if i == es.len() - 1 {
        assert(up.drop_last() =~= es.drop_last());
        assert(up.last() == e);
        assert(dict_model(up, buf) =~= dict_model(es, buf).insert(k, e.1.model(buf)));
    } else {
        let front = es.drop_last();
        assert(up.drop_last() =~= front.update(i, e));
        assert(up.last() == es.last());
        lemma_dict_model_update(front, buf, i, e);
        let lastk = span_bytes(es.last().0, buf);
        assert(es[es.len() - 1] == es.last());
        assert(lastk != k);
        assert(dict_model(up, buf) =~= dict_model(es, buf).insert(k, e.1.model(buf)));
    }
}

/// The error type of the decoder.  Each variant carries a byte offset into
/// the input buffer: for the fatal kinds, where the malformed token begins;
/// for a structural mismatch, where the input stopped matching.
#[derive(Debug, Clone, Copy, PartialEq, Eq, Structural)]
pub enum BencodeError {
    /// Recoverable: the token here is not of the attempted kind.
    StructuralMismatch(usize),
    /// Fatal: an integer literal with a forbidden leading zero, or `-0`.
    InvalidInteger(usize),
    /// Fatal: an integer value or declared length outside its numeric range.
    IntegerOverflow(usize),
    /// Fatal: a byte string with a declared length of zero.
    InvalidByteStringLength(usize),
}

impl View for BencodeError {
    type V = SpecError;

    open spec fn view(&self) -> SpecError {
        match *self {
            BencodeError::StructuralMismatch(o) => SpecError::StructuralMismatch(o as int),
            BencodeError::InvalidInteger(o) => SpecError::InvalidInteger(o as int),
            BencodeError::IntegerOverflow(o) => SpecError::IntegerOverflow(o as int),
            BencodeError::InvalidByteStringLength(o) => SpecError::InvalidByteStringLength(
                o as int,
            ),
        }
    }
}

impl BencodeError {
    /// Whether this error aborts the whole parse rather than letting the
    /// dispatcher try another grammar alternative.
    pub fn is_fatal(&self) -> (r: bool)
        ensures
            r == self@.is_fatal(),
    {
        match *self {
            BencodeError::StructuralMismatch(_) => false,
            _ => true,
        }
    }
}

} // verus!
