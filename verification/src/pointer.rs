//! Typed pointer values: a (descriptor, address) pair produced by reads,
//! with comparison and offset arithmetic. Numeric comparison and offset
//! arithmetic go by a number's unsigned magnitude: a negative offset moves
//! forward by its magnitude, never backward.

use crate::memory::{mag, wrap_add};
use crate::native::{type_view, Type, TypeV};
use crate::value::{Value, ValueV};
use vstd::prelude::*;

verus! {

/// A typed pointer offset by the unsigned magnitude of `n`.
pub open spec fn spec_offset(p: ValueV, n: i64) -> ValueV
    recommends
        p is Ptr,
{
    match p {
        ValueV::Ptr(t, a) => ValueV::Ptr(t, wrap_add(a, mag(n))),
        _ => p,
    }
}

/// Offsetting by a number and by its negation land at the same place: the
/// magnitude policy makes a negative offset move forward, not backward.
pub proof fn lemma_offset_by_magnitude(p: ValueV, n: i64)
    requires
        n != i64::MIN,
    ensures
        spec_offset(p, n) == spec_offset(p, (0 - n) as i64),
{
    assert(mag(n) == mag((0 - n) as i64));
}

/// The same magnitude policy on a bare address.
pub proof fn lemma_addr_offset_by_magnitude(a: u64, n: i64)
    requires
        n != i64::MIN,
    ensures
        wrap_add(a, mag(n)) == wrap_add(a, mag((0 - n) as i64)),
{
    assert(mag(n) == mag((0 - n) as i64));
}

/// Pair a descriptor with a target address.
pub fn ptr(ty: Type, a: u64) -> (p: Value)
    ensures
        p@ == ValueV::Ptr(type_view(ty), a),
{
    Value::Ptr(Box::new(ty), a)
}

/// The pointer's target address.
pub fn get_addr(p: &Value) -> (r: u64)
    requires
        p@ is Ptr,
    ensures
        p@ matches ValueV::Ptr(_, a) && r == a,
{
    match p {
        Value::Ptr(_, a) => *a,
        _ => {
            proof {
                assert(false);
            }
            0
        },
    }
}

/// Whether two typed pointers are equal: both the descriptor and the
/// address must match.
pub fn eq(p: &Value, p2: &Value) -> (r: bool)
    requires
        p@ is Ptr,
        p2@ is Ptr,
    ensures
        r == (p@ == p2@),
{
    match (p, p2) {
        (Value::Ptr(t1, a1), Value::Ptr(t2, a2)) => *a1 == *a2 && (**t1).eq(&**t2),
        _ => {
            proof {
                assert(false);
            }
            false
        },
    }
}

/// Whether the pointer's address equals the given address.
pub fn eq_addr(p: &Value, a2: u64) -> (r: bool)
    requires
        p@ is Ptr,
    ensures
        r == (p@ matches ValueV::Ptr(_, a) && a == a2),
{
    get_addr(p) == a2
}

/// Whether the pointer's address equals the unsigned magnitude of `num`.
pub fn eq_num_addr(p: &Value, num: i64) -> (r: bool)
    requires
        p@ is Ptr,
    ensures
        r == (p@ matches ValueV::Ptr(_, a) && a == mag(num)),
{
    get_addr(p) == crate::memory::addr(num)
}

/// Whether the pointer's descriptor equals the given descriptor.
pub fn eq_ty(p: &Value, ty2: &Type) -> (r: bool)
    requires
        p@ is Ptr,
    ensures
        r == (p@ matches ValueV::Ptr(t, _) && t == ty2@),
{
    match p {
        Value::Ptr(t, _) => (**t).eq(ty2),
        _ => {
            proof {
                assert(false);
            }
            false
        },
    }
}

/// A pointer offset from the original by the unsigned magnitude of
/// `offset`; the descriptor is kept.
pub fn add_num(p: &Value, offset: i64) -> (r: Value)
    requires
        p@ is Ptr,
    ensures
        r@ == spec_offset(p@, offset),
{
    match p {
        Value::Ptr(t, a) => Value::Ptr(
            Box::new((**t).clone()),
            a.wrapping_add(crate::memory::addr(offset)),
        ),
        _ => {
            proof {
                assert(false);
            }
            Value::Int(0)
        },
    }
}

} // verus!
