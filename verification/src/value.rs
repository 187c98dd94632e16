//! The generic dynamic value tree: the codec's boundary type. A value is a
//! signed 64-bit integer, a floating-point bit pattern, narrow text, an
//! opaque address, a typed pointer, an ordered record, or a sequence.

use crate::native::{type_view, Type, TypeV};
use vstd::prelude::*;

verus! {

/// Mathematical form of a dynamic value.
pub enum ValueV {
    Int(i64),
    /// IEEE754 single-precision bit pattern.
    Float32(u32),
    /// IEEE754 double-precision bit pattern.
    Float64(u64),
    Text(Seq<char>),
    Addr(u64),
    /// A typed pointer: the pointee's descriptor and the target address.
    Ptr(TypeV, u64),
    /// Named fields in the order the descriptor lists them.
    Record(Seq<(Seq<char>, ValueV)>),
    Sequence(Seq<ValueV>),
}

/// A dynamic value: the executable form.
pub enum Value {
    Int(i64),
    /// IEEE754 single-precision bit pattern, kept as its raw bits.
    Float32(u32),
    /// IEEE754 double-precision bit pattern, kept as its raw bits.
    Float64(u64),
    Text(String),
    Addr(u64),
    /// A typed pointer: the pointee's descriptor and the target address.
    Ptr(Box<Type>, u64),
    /// Named fields in the order the descriptor lists them.
    Record(Vec<(String, Value)>),
    Sequence(Vec<Value>),
}

pub open spec fn value_view(v: Value) -> ValueV
    decreases v,
{
    match v {
        Value::Int(i) => ValueV::Int(i),
        Value::Float32(b) => ValueV::Float32(b),
        Value::Float64(b) => ValueV::Float64(b),
        Value::Text(s) => ValueV::Text(s@),
        Value::Addr(a) => ValueV::Addr(a),
        Value::Ptr(t, a) => ValueV::Ptr(type_view(*t), a),
        Value::Record(entries) => ValueV::Record(record_view(entries@)),
        Value::Sequence(items) => ValueV::Sequence(sequence_view(items@)),
    }
}

pub open spec fn record_view(entries: Seq<(String, Value)>) -> Seq<(Seq<char>, ValueV)>
    decreases entries,
{
    if entries.len() == 0 {
        Seq::empty()
    } else {
        record_view(entries.drop_last()).push(
            (entries.last().0@, value_view(entries.last().1)),
        )
    }
}

pub open spec fn sequence_view(items: Seq<Value>) -> Seq<ValueV>
    decreases items,
{
    if items.len() == 0 {
        Seq::empty()
    } else {
        sequence_view(items.drop_last()).push(value_view(items.last()))
    }
}

pub proof fn lemma_record_view(entries: Seq<(String, Value)>)
    ensures
        record_view(entries).len() == entries.len(),
        forall|i: int|
            0 <= i < entries.len() ==> record_view(entries)[i] == (
                entries[i].0@,
                value_view(entries[i].1),
            ),
    decreases entries,
{
    if entries.len() > 0 {
        lemma_record_view(entries.drop_last());
    }
}

pub proof fn lemma_sequence_view(items: Seq<Value>)
    ensures
        sequence_view(items).len() == items.len(),
        forall|i: int| 0 <= i < items.len() ==> sequence_view(items)[i] == value_view(items[i]),
    decreases items,
{
    if items.len() > 0 {
        lemma_sequence_view(items.drop_last());
    }
}

impl View for Value {
    type V = ValueV;

    open spec fn view(&self) -> ValueV {
        value_view(*self)
    }
}

} // verus!
