//! The memory codec: recursive read and write of dynamic value trees,
//! driven by a layout descriptor, against an abstract memory-access
//! capability.
//!
//! Multi-byte numbers are little-endian. Every integer read is widened into
//! the common signed 64-bit value container; a 64-bit unsigned number with
//! its high bit set therefore comes back as a negative value (a documented
//! limitation of the widening, kept as it is). Reading a pointer yields a
//! typed pointer value and does not dereference; writing through a pointer
//! descriptor first reads the stored target address and then writes the
//! supplied value into the pointee.

use crate::memory::{bytes_at, region_in, store_bytes, wrap_add, MemoryAccess};
use crate::native::{
    fields_view, lemma_fields_view, size_v, struct_wf_v, type_view, wf_v, Type, TypeV,
};
use crate::value::{
    lemma_record_view, lemma_sequence_view, record_view, sequence_view, value_view, Value, ValueV,
};
use vstd::bytes::{
    spec_u16_from_le_bytes, spec_u16_to_le_bytes, spec_u32_from_le_bytes, spec_u32_to_le_bytes,
    spec_u64_from_le_bytes, spec_u64_to_le_bytes, u16_from_le_bytes, u16_to_le_bytes,
    u32_from_le_bytes, u32_to_le_bytes, u64_from_le_bytes, u64_to_le_bytes,
};
use vstd::prelude::*;
use vstd::utf8::is_ascii_chars;

verus! {

/// Relies on String::push: appends one character to the string.
pub assume_specification[ String::push ](s: &mut String, c: char)
    ensures
        final(s)@ == old(s)@.push(c),
;

/// A failed codec operation.
#[derive(Debug)]
pub enum CodecError {
    /// The backend refused a read or write starting at `addr`.
    MemoryAccess { addr: u64, msg: String },
    /// Bytes at `addr` are not valid for the declared text encoding, or a
    /// supplied text value cannot be encoded as declared.
    Decode { addr: u64 },
    /// A struct write found no entry of this name in the supplied record.
    MissingField { name: String },
    /// A supplied text or sequence does not have the declared length.
    WrongLength { expected: u32, actual: u64 },
    /// The supplied value's kind does not fit the descriptor.
    WrongKind,
}

/// Mathematical form of a codec error. A memory-access failure carries
/// the failing address and the backend's message, surfaced verbatim.
pub enum ErrV {
    Mem { addr: u64, msg: Seq<char> },
    Decode { addr: u64 },
    MissingField { name: Seq<char> },
    WrongLength { expected: u32, actual: nat },
    WrongKind,
}

impl View for CodecError {
    type V = ErrV;

    open spec fn view(&self) -> ErrV {
        match self {
            CodecError::MemoryAccess { addr, msg } => ErrV::Mem { addr: *addr, msg: msg@ },
            CodecError::Decode { addr } => ErrV::Decode { addr: *addr },
            CodecError::MissingField { name } => ErrV::MissingField { name: name@ },
            CodecError::WrongLength { expected, actual } => ErrV::WrongLength {
                expected: *expected,
                actual: *actual as nat,
            },
            CodecError::WrongKind => ErrV::WrongKind,
        }
    }
}

pub open spec fn rres(r: Result<Value, CodecError>) -> Result<ValueV, ErrV> {
    match r {
        Ok(v) => Ok(value_view(v)),
        Err(e) => Err(e@),
    }
}

pub open spec fn wres(r: Result<(), CodecError>) -> Result<(), ErrV> {
    match r {
        Ok(_) => Ok(()),
        Err(e) => Err(e@),
    }
}

/// The bytes of an ASCII character sequence, one byte per character.
pub open spec fn ascii_bytes_of(s: Seq<char>) -> Seq<u8> {
    Seq::new(s.len(), |i: int| s[i] as u8)
}

/// All bytes are ASCII.
pub open spec fn bytes_ascii(b: Seq<u8>) -> bool {
    forall|i: int| 0 <= i < b.len() ==> b[i] < 0x80
}

/// The characters of a byte sequence already known to be ASCII.
pub open spec fn chars_of_bytes(b: Seq<u8>) -> Seq<char> {
    Seq::new(b.len(), |i: int| b[i] as char)
}

/// A wide-text region of `n` code units is ASCII: every even byte is an
/// ASCII byte and every odd byte is zero.
pub open spec fn wide_bytes_ascii(b: Seq<u8>, n: nat) -> bool {
    forall|i: int| 0 <= i < n ==> #[trigger] b[2 * i] < 0x80 && b[2 * i + 1] == 0
}

/// The characters of an ASCII wide-text region of `n` code units.
pub open spec fn chars_of_wide_bytes(b: Seq<u8>, n: nat) -> Seq<char> {
    Seq::new(n, |i: int| b[2 * i] as char)
}

/// The wide-text encoding of an ASCII character sequence: one little-endian
/// 16-bit code unit per character.
pub open spec fn wide_bytes_of(s: Seq<char>) -> Seq<u8> {
    Seq::new(2 * s.len(), |i: int| if i % 2 == 0 { s[i / 2] as u8 } else { 0u8 })
}

/// What reading memory `m` at `a` with descriptor `t` returns; `fm` is
/// the message the backend attaches to a refused access, carried verbatim
/// in a memory-access failure. Every integer result is widened into a
/// signed 64-bit value; pointers are not dereferenced; struct fields are
/// read in ascending offset order and a collection's elements in index
/// order, and the first failure is the result.
pub open spec fn spec_read(m: Map<int, u8>, fm: Seq<char>, t: TypeV, a: u64) -> Result<ValueV, ErrV>
    decreases t, 0nat,
{
    match t {
        TypeV::UInt8 => if !region_in(m, a as int, 1) {
            Err(ErrV::Mem { addr: a, msg: fm })
        } else {
            Ok(ValueV::Int(bytes_at(m, a as int, 1)[0] as i64))
        },
        TypeV::UInt16 => if !region_in(m, a as int, 2) {
            Err(ErrV::Mem { addr: a, msg: fm })
        } else {
            Ok(ValueV::Int(spec_u16_from_le_bytes(bytes_at(m, a as int, 2)) as i64))
        },
        TypeV::Int32 => if !region_in(m, a as int, 4) {
            Err(ErrV::Mem { addr: a, msg: fm })
        } else {
            Ok(ValueV::Int((spec_u32_from_le_bytes(bytes_at(m, a as int, 4)) as i32) as i64))
        },
        TypeV::UInt32 => if !region_in(m, a as int, 4) {
            Err(ErrV::Mem { addr: a, msg: fm })
        } else {
            Ok(ValueV::Int(spec_u32_from_le_bytes(bytes_at(m, a as int, 4)) as i64))
        },
        TypeV::Fp32 => if !region_in(m, a as int, 4) {
            Err(ErrV::Mem { addr: a, msg: fm })
        } else {
            Ok(ValueV::Float32(spec_u32_from_le_bytes(bytes_at(m, a as int, 4))))
        },
        TypeV::Address32 => if !region_in(m, a as int, 4) {
            Err(ErrV::Mem { addr: a, msg: fm })
        } else {
            Ok(ValueV::Addr(spec_u32_from_le_bytes(bytes_at(m, a as int, 4)) as u64))
        },
        TypeV::Pointer32(inner) => if !region_in(m, a as int, 4) {
            Err(ErrV::Mem { addr: a, msg: fm })
        } else {
            Ok(ValueV::Ptr(*inner, spec_u32_from_le_bytes(bytes_at(m, a as int, 4)) as u64))
        },
        TypeV::Int64 => if !region_in(m, a as int, 8) {
            Err(ErrV::Mem { addr: a, msg: fm })
        } else {
            Ok(ValueV::Int(spec_u64_from_le_bytes(bytes_at(m, a as int, 8)) as i64))
        },
        TypeV::UInt64 => if !region_in(m, a as int, 8) {
            Err(ErrV::Mem { addr: a, msg: fm })
        } else {
            Ok(ValueV::Int(spec_u64_from_le_bytes(bytes_at(m, a as int, 8)) as i64))
        },
        TypeV::Fp64 => if !region_in(m, a as int, 8) {
            Err(ErrV::Mem { addr: a, msg: fm })
        } else {
            Ok(ValueV::Float64(spec_u64_from_le_bytes(bytes_at(m, a as int, 8))))
        },
        TypeV::Address64 => if !region_in(m, a as int, 8) {
            Err(ErrV::Mem { addr: a, msg: fm })
        } else {
            Ok(ValueV::Addr(spec_u64_from_le_bytes(bytes_at(m, a as int, 8))))
        },
        TypeV::Pointer64(inner) => if !region_in(m, a as int, 8) {
            Err(ErrV::Mem { addr: a, msg: fm })
        } else {
            Ok(ValueV::Ptr(*inner, spec_u64_from_le_bytes(bytes_at(m, a as int, 8))))
        },
        TypeV::Text(len) => if !region_in(m, a as int, len as nat) {
            Err(ErrV::Mem { addr: a, msg: fm })
        } else if !bytes_ascii(bytes_at(m, a as int, len as nat)) {
            Err(ErrV::Decode { addr: a })
        } else {
            Ok(ValueV::Text(chars_of_bytes(bytes_at(m, a as int, len as nat))))
        },
        TypeV::WideText(len) => if !region_in(m, a as int, 2 * len as nat) {
            Err(ErrV::Mem { addr: a, msg: fm })
        } else if !wide_bytes_ascii(bytes_at(m, a as int, 2 * len as nat), len as nat) {
            Err(ErrV::Decode { addr: a })
        } else {
            Ok(ValueV::Text(chars_of_wide_bytes(bytes_at(m, a as int, 2 * len as nat), len as nat)))
        },
        TypeV::Struct(fs) => match spec_read_fields(m, fm, fs, a) {
            Ok(entries) => Ok(ValueV::Record(entries)),
            Err(e) => Err(e),
        },
        TypeV::Collection(el, n) => match spec_read_elems(m, fm, *el, a, 0, n as nat) {
            Ok(items) => Ok(ValueV::Sequence(items)),
            Err(e) => Err(e),
        },
    }
}

/// Reading a struct's fields, each at the struct's base address plus the
/// field's offset, in map order.
pub open spec fn spec_read_fields(
    m: Map<int, u8>,
    fm: Seq<char>,
    fs: Seq<(u32, crate::native::FieldV)>,
    base: u64,
) -> Result<Seq<(Seq<char>, ValueV)>, ErrV>
    decreases fs, 0nat,
{
    if fs.len() == 0 {
        Ok(Seq::empty())
    } else {
        match spec_read(m, fm, fs[0].1.ty, wrap_add(base, fs[0].0 as u64)) {
            Ok(v) => match spec_read_fields(m, fm, fs.drop_first(), base) {
                Ok(rest) => Ok(seq![(fs[0].1.name, v)] + rest),
                Err(e) => Err(e),
            },
            Err(e) => Err(e),
        }
    }
}

/// Reading elements `i..n` of a collection, element `j` at the base address
/// plus `j` element sizes.
pub open spec fn spec_read_elems(
    m: Map<int, u8>,
    fm: Seq<char>,
    el: TypeV,
    base: u64,
    i: nat,
    n: nat,
) -> Result<
    Seq<ValueV>,
    ErrV,
>
    decreases el, n - i,
{
    if i >= n {
        Ok(Seq::empty())
    } else {
        match spec_read(m, fm, el, wrap_add(base, (i * size_v(el)) as u64)) {
            Ok(v) => match spec_read_elems(m, fm, el, base, i + 1, n) {
                Ok(rest) => Ok(seq![v] + rest),
                Err(e) => Err(e),
            },
            Err(e) => Err(e),
        }
    }
}

/// First record entry of this name, searching in entry order.
pub open spec fn rec_lookup(entries: Seq<(Seq<char>, ValueV)>, name: Seq<char>) -> Option<ValueV>
    decreases entries,
{
    if entries.len() == 0 {
        None
    } else if entries[0].0 == name {
        Some(entries[0].1)
    } else {
        rec_lookup(entries.drop_first(), name)
    }
}

/// Store `bytes` at `a`: fails without changing memory when the region is
/// not backed.
pub open spec fn put_bytes(m: Map<int, u8>, fm: Seq<char>, a: u64, bytes: Seq<u8>) -> (Result<(), ErrV>, Map<
    int,
    u8,
>) {
    if !region_in(m, a as int, bytes.len()) {
        (Err(ErrV::Mem { addr: a, msg: fm }), m)
    } else {
        (Ok(()), store_bytes(m, a as int, bytes))
    }
}

/// What writing value `v` to memory `m` at `a` with descriptor `t` does:
/// the result and the memory afterwards; `fm` is the message the backend
/// attaches to a refused access, carried verbatim in a memory-access
/// failure. Numbers are encoded at the declared width (truncating);
/// writing through a pointer descriptor reads the stored target address
/// and writes the value into the pointee; struct fields are looked up by
/// name in the supplied record and written in ascending offset order;
/// recursion is fail-fast, and bytes stored before the first failure stay
/// stored.
pub open spec fn spec_write(m: Map<int, u8>, fm: Seq<char>, t: TypeV, a: u64, v: ValueV) -> (Result<(), ErrV>, Map<
    int,
    u8,
>)
    decreases t, 0nat,
{
    match t {
        TypeV::UInt8 => match v {
            ValueV::Int(i) => put_bytes(m, fm, a, seq![i as u8]),
            _ => (Err(ErrV::WrongKind), m),
        },
        TypeV::UInt16 => match v {
            ValueV::Int(i) => put_bytes(m, fm, a, spec_u16_to_le_bytes(i as u16)),
            _ => (Err(ErrV::WrongKind), m),
        },
        TypeV::Int32 => match v {
            ValueV::Int(i) => put_bytes(m, fm, a, spec_u32_to_le_bytes(i as u32)),
            _ => (Err(ErrV::WrongKind), m),
        },
        TypeV::UInt32 => match v {
            ValueV::Int(i) => put_bytes(m, fm, a, spec_u32_to_le_bytes(i as u32)),
            _ => (Err(ErrV::WrongKind), m),
        },
        TypeV::Fp32 => match v {
            ValueV::Float32(b) => put_bytes(m, fm, a, spec_u32_to_le_bytes(b)),
            _ => (Err(ErrV::WrongKind), m),
        },
        TypeV::Address32 => match v {
            ValueV::Addr(x) => put_bytes(m, fm, a, spec_u32_to_le_bytes(x as u32)),
            ValueV::Int(i) => put_bytes(m, fm, a, spec_u32_to_le_bytes(i as u32)),
            _ => (Err(ErrV::WrongKind), m),
        },
        TypeV::Pointer32(inner) => if !region_in(m, a as int, 4) {
            (Err(ErrV::Mem { addr: a, msg: fm }), m)
        } else {
            spec_write(m, fm, *inner, spec_u32_from_le_bytes(bytes_at(m, a as int, 4)) as u64, v)
        },
        TypeV::Int64 => match v {
            ValueV::Int(i) => put_bytes(m, fm, a, spec_u64_to_le_bytes(i as u64)),
            _ => (Err(ErrV::WrongKind), m),
        },
        TypeV::UInt64 => match v {
            ValueV::Int(i) => put_bytes(m, fm, a, spec_u64_to_le_bytes(i as u64)),
            _ => (Err(ErrV::WrongKind), m),
        },
        TypeV::Fp64 => match v {
            ValueV::Float64(b) => put_bytes(m, fm, a, spec_u64_to_le_bytes(b)),
            _ => (Err(ErrV::WrongKind), m),
        },
        TypeV::Address64 => match v {
            ValueV::Addr(x) => put_bytes(m, fm, a, spec_u64_to_le_bytes(x)),
            ValueV::Int(i) => put_bytes(m, fm, a, spec_u64_to_le_bytes(i as u64)),
            _ => (Err(ErrV::WrongKind), m),
        },
        TypeV::Pointer64(inner) => if !region_in(m, a as int, 8) {
            (Err(ErrV::Mem { addr: a, msg: fm }), m)
        } else {
            spec_write(m, fm, *inner, spec_u64_from_le_bytes(bytes_at(m, a as int, 8)), v)
        },
        TypeV::Text(len) => match v {
            ValueV::Text(s) => if !is_ascii_chars(s) {
                (Err(ErrV::Decode { addr: a }), m)
            } else if s.len() != len {
                (Err(ErrV::WrongLength { expected: len, actual: s.len() }), m)
            } else {
                put_bytes(m, fm, a, ascii_bytes_of(s))
            },
            _ => (Err(ErrV::WrongKind), m),
        },
        TypeV::WideText(len) => match v {
            ValueV::Text(s) => if !is_ascii_chars(s) {
                (Err(ErrV::Decode { addr: a }), m)
            } else if s.len() != len {
                (Err(ErrV::WrongLength { expected: len, actual: s.len() }), m)
            } else {
                put_bytes(m, fm, a, wide_bytes_of(s))
            },
            _ => (Err(ErrV::WrongKind), m),
        },
        TypeV::Struct(fs) => match v {
            ValueV::Record(entries) => spec_write_fields(m, fm, fs, a, entries),
            _ => (Err(ErrV::WrongKind), m),
        },
        TypeV::Collection(el, n) => match v {
            ValueV::Sequence(items) => if items.len() != n {
                (Err(ErrV::WrongLength { expected: n, actual: items.len() }), m)
            } else {
                spec_write_elems(m, fm, *el, a, items, 0)
            },
            _ => (Err(ErrV::WrongKind), m),
        },
    }
}

/// Writing a struct's fields: each field's value is the first record entry
/// of the field's name; a field with no entry fails, keeping the writes
/// already made.
pub open spec fn spec_write_fields(
    m: Map<int, u8>,
    fm: Seq<char>,
    fs: Seq<(u32, crate::native::FieldV)>,
    base: u64,
    entries: Seq<(Seq<char>, ValueV)>,
) -> (Result<(), ErrV>, Map<int, u8>)
    decreases fs, 0nat,
{
    if fs.len() == 0 {
        (Ok(()), m)
    } else {
        match rec_lookup(entries, fs[0].1.name) {
            None => (Err(ErrV::MissingField { name: fs[0].1.name }), m),
            Some(v) => {
                let rm = spec_write(m, fm, fs[0].1.ty, wrap_add(base, fs[0].0 as u64), v);
                if rm.0 is Err {
                    rm
                } else {
                    spec_write_fields(rm.1, fm, fs.drop_first(), base, entries)
                }
            },
        }
    }
}

/// Writing elements `i..` of a collection in index order.
pub open spec fn spec_write_elems(
    m: Map<int, u8>,
    fm: Seq<char>,
    el: TypeV,
    base: u64,
    items: Seq<ValueV>,
    i: nat,
) -> (Result<(), ErrV>, Map<int, u8>)
    decreases el, items.len() - i,
{
    if i >= items.len() {
        (Ok(()), m)
    } else {
        let rm = spec_write(m, fm, el, wrap_add(base, (i * size_v(el)) as u64), items[i as int]);
        if rm.0 is Err {
            rm
        } else {
            spec_write_elems(rm.1, fm, el, base, items, i + 1)
        }
    }
}

/// Read `n` bytes at `a`, turning a backend failure into a codec error.
fn fetch<M: MemoryAccess>(mem: &mut M, a: u64, n: u64) -> (r: Result<Vec<u8>, CodecError>)
    ensures
        *final(mem) == *old(mem),
        match r {
            Ok(b) => region_in(old(mem).contents(), a as int, n as nat) && b@ == bytes_at(
                old(mem).contents(),
                a as int,
                n as nat,
            ),
            Err(e) => !region_in(old(mem).contents(), a as int, n as nat) && e@ == (ErrV::Mem {
                addr: a,
                msg: old(mem).fail_msg(),
            }),
        },
{
    match mem.read_bytes(a, n) {
        Ok(b) => Ok(b),
        Err(e) => Err(CodecError::MemoryAccess { addr: e.addr, msg: e.msg }),
    }
}

/// Read memory at `a` as a value of the layout `ty` describes. The result
/// is exactly what `spec_read` says of the memory's contents; memory itself
/// is unchanged.
#[verifier::rlimit(100)]
pub fn read_to_dyn<M: MemoryAccess>(mem: &mut M, ty: &Type, a: u64) -> (r: Result<
    Value,
    CodecError,
>)
    requires
        wf_v(ty@),
    ensures
        *final(mem) == *old(mem),
        rres(r) == spec_read(old(mem).contents(), old(mem).fail_msg(), ty@, a),
    decreases *ty,
{
    match ty {
        Type::UInt8 => match fetch(mem, a, 1) {
            Ok(b) => Ok(Value::Int(b[0] as i64)),
            Err(e) => Err(e),
        },
        Type::UInt16 => match fetch(mem, a, 2) {
            Ok(b) => Ok(Value::Int(u16_from_le_bytes(b.as_slice()) as i64)),
            Err(e) => Err(e),
        },
        Type::Int32 => match fetch(mem, a, 4) {
            Ok(b) => {
                let u = u32_from_le_bytes(b.as_slice());
                Ok(Value::Int((#[verifier::truncate] (u as i32)) as i64))
            },
            Err(e) => Err(e),
        },
        Type::UInt32 => match fetch(mem, a, 4) {
            Ok(b) => Ok(Value::Int(u32_from_le_bytes(b.as_slice()) as i64)),
            Err(e) => Err(e),
        },
        Type::Fp32 => match fetch(mem, a, 4) {
            Ok(b) => Ok(Value::Float32(u32_from_le_bytes(b.as_slice()))),
            Err(e) => Err(e),
        },
        Type::Address32 => match fetch(mem, a, 4) {
            Ok(b) => Ok(Value::Addr(u32_from_le_bytes(b.as_slice()) as u64)),
            Err(e) => Err(e),
        },
        Type::Pointer32(inner) => match fetch(mem, a, 4) {
            Ok(b) => {
                let target = u32_from_le_bytes(b.as_slice()) as u64;
                Ok(Value::Ptr(Box::new((**inner).clone()), target))
            },
            Err(e) => Err(e),
        },
        Type::Int64 => match fetch(mem, a, 8) {
            Ok(b) => {
                let u = u64_from_le_bytes(b.as_slice());
                Ok(Value::Int(#[verifier::truncate] (u as i64)))
            },
            Err(e) => Err(e),
        },
        Type::UInt64 => match fetch(mem, a, 8) {
            Ok(b) => {
                let u = u64_from_le_bytes(b.as_slice());
                Ok(Value::Int(#[verifier::truncate] (u as i64)))
            },
            Err(e) => Err(e),
        },
        Type::Fp64 => match fetch(mem, a, 8) {
            Ok(b) => Ok(Value::Float64(u64_from_le_bytes(b.as_slice()))),
            Err(e) => Err(e),
        },
        Type::Address64 => match fetch(mem, a, 8) {
            Ok(b) => Ok(Value::Addr(u64_from_le_bytes(b.as_slice()))),
            Err(e) => Err(e),
        },
        Type::Pointer64(inner) => match fetch(mem, a, 8) {
            Ok(b) => {
                let target = u64_from_le_bytes(b.as_slice());
                Ok(Value::Ptr(Box::new((**inner).clone()), target))
            },
            Err(e) => Err(e),
        },
        Type::Text(len) => {
            let ghost lg = *len;
            match fetch(mem, a, *len as u64) {
                Ok(b) => {
                    let ghost bs = b@;
                    let mut out = String::new();
                    let mut i: usize = 0;
                    while i < b.len()
                        invariant
                            *mem == *old(mem),
                            ty@ == TypeV::Text(lg),
                            region_in(old(mem).contents(), a as int, lg as nat),
                            bs == bytes_at(old(mem).contents(), a as int, lg as nat),
                            b@ == bs,
                            bs.len() == lg as nat,
                            i <= bs.len(),
                            out@ == chars_of_bytes(bs.subrange(0, i as int)),
                            forall|j: int| 0 <= j < i ==> bs[j] < 0x80,
                        decreases bs.len() - i,
                    {
                        let byte = b[i];
                        if byte >= 0x80 {
                            proof {
                                assert(bs[i as int] >= 0x80);
                                assert(!bytes_ascii(bs));
                            }
                            return Err(CodecError::Decode { addr: a });
                        }
                        out.push(byte as char);
                        i += 1;
                        proof {
                            assert(out@ =~= chars_of_bytes(bs.subrange(0, i as int)));
                        }
                    }
                    proof {
                        assert(bytes_ascii(bs));
                        assert(bs.subrange(0, bs.len() as int) =~= bs);
                        assert(out@ =~= chars_of_bytes(bs));
                    }
                    Ok(Value::Text(out))
                },
                Err(e) => Err(e),
            }
        },
        Type::WideText(len) => {
            let ghost lg = *len;
            match fetch(mem, a, 2 * (*len as u64)) {
                Ok(b) => {
                    let ghost bs = b@;
                    let count = *len as usize;
                    let blen = b.len();
                    proof {
                        assert(bs.len() == 2 * (lg as nat));
                        assert(count as nat == lg as nat);
                        assert(blen as nat == 2 * (count as nat));
                    }
                    let mut out = String::new();
                    let mut i: usize = 0;
                    while i < count
                        invariant
                            *mem == *old(mem),
                            ty@ == TypeV::WideText(lg),
                            region_in(old(mem).contents(), a as int, 2 * lg as nat),
                            bs == bytes_at(old(mem).contents(), a as int, 2 * lg as nat),
                            b@ == bs,
                            count as nat == lg as nat,
                            bs.len() == 2 * (count as nat),
                            2 * count <= usize::MAX,
                            i <= count,
                            out@ == chars_of_wide_bytes(bs, i as nat),
                            forall|j: int|
                                0 <= j < i ==> #[trigger] bs[2 * j] < 0x80 && bs[2 * j + 1] == 0,
                        decreases count - i,
                    {
                        let lo = b[2 * i];
                        let hi = b[2 * i + 1];
                        if lo >= 0x80 || hi != 0 {
                            proof {
                                assert(bs[2 * (i as int)] == lo && bs[2 * (i as int) + 1] == hi);
                                assert(!wide_bytes_ascii(bs, lg as nat));
                            }
                            return Err(CodecError::Decode { addr: a });
                        }
                        out.push(lo as char);
                        i += 1;
                        proof {
                            assert(out@ =~= chars_of_wide_bytes(bs, i as nat));
                        }
                    }
                    proof {
                        assert(wide_bytes_ascii(bs, lg as nat));
                        assert(out@ =~= chars_of_wide_bytes(bs, lg as nat));
                    }
                    Ok(Value::Text(out))
                },
                Err(e) => Err(e),
            }
        },
        Type::Struct(st) => {
            let ghost fsv = fields_view(st.0@);
            let ghost m0 = mem.contents();
            let ghost fm0 = mem.fail_msg();
            proof {
                lemma_fields_view(st.0@);
                assert(fsv.skip(0) =~= fsv);
                if spec_read_fields(m0, fm0, fsv, a) is Ok {
                    let rest = spec_read_fields(m0, fm0, fsv, a)->Ok_0;
                    assert(record_view(Seq::<(String, Value)>::empty()) + rest =~= rest);
                }
            }
            let mut entries: Vec<(String, Value)> = Vec::new();
            let mut i: usize = 0;
            while i < st.0.len()
                invariant
                    *ty == Type::Struct(*st),
                    ty@ == TypeV::Struct(fsv),
                    struct_wf_v(fsv),
                    fsv == fields_view(st.0@),
                    fsv.len() == st.0@.len(),
                    forall|j: int|
                        0 <= j < st.0@.len() ==> fsv[j] == (
                            st.0@[j].0,
                            crate::native::field_view(st.0@[j].1),
                        ),
                    *mem == *old(mem),
                    m0 == mem.contents(),
                    fm0 == mem.fail_msg(),
                    i <= st.0@.len(),
                    entries@.len() == i,
                    spec_read_fields(m0, fm0, fsv, a) == (match spec_read_fields(
                        m0,
                        fm0,
                        fsv.skip(i as int),
                        a,
                    ) {
                        Ok(rest) => Ok::<_, ErrV>(record_view(entries@) + rest),
                        Err(e) => Err::<Seq<(Seq<char>, ValueV)>, _>(e),
                    }),
                decreases st.0@.len() - i,
            {
                let off = st.0[i].0;
                let fld = &st.0[i].1;
                let sub = a.wrapping_add(off as u64);
                let ghost before = fsv.skip(i as int);
                proof {
                    assert(before[0] == fsv[i as int]);
                    assert(before.drop_first() =~= fsv.skip(i as int + 1));
                    assert(wf_v(fsv[i as int].1.ty));
                    assert(fsv[i as int].1.ty == type_view(st.0@[i as int].1.ty));
                    assert(decreases_to!(st.0 => st.0@));
                    assert(decreases_to!(st.0@ => st.0@[i as int]));
                    assert(decreases_to!(*ty => st.0@[i as int].1.ty));
                }
                match read_to_dyn(mem, &fld.ty, sub) {
                    Ok(v) => {
                        let ghost evs = entries@;
                        let name = fld.name.clone();
                        entries.push((name, v));
                        proof {
                            assert(entries@.drop_last() =~= evs);
                            assert(record_view(entries@) == record_view(evs).push(
                                (fsv[i as int].1.name, value_view(v)),
                            ));
                            assert(spec_read(
                                m0,
                                fm0,
                                before[0].1.ty,
                                wrap_add(a, before[0].0 as u64),
                            ) == Ok::<_, ErrV>(value_view(v)));
                            if spec_read_fields(m0, fm0, fsv.skip(i as int + 1), a) is Ok {
                                let rest = spec_read_fields(
                                    m0,
                                    fm0,
                                    fsv.skip(i as int + 1),
                                    a,
                                )->Ok_0;
                                assert(spec_read_fields(m0, fm0, before, a) == Ok::<_, ErrV>(
                                    seq![(before[0].1.name, value_view(v))] + rest,
                                ));
                                assert(record_view(evs) + (seq![
                                    (fsv[i as int].1.name, value_view(v)),
                                ] + rest) =~= record_view(entries@) + rest);
                            }
                        }
                        i += 1;
                    },
                    Err(e) => {
                        proof {
                            assert(spec_read_fields(m0, fm0, before, a) == Err::<
                                Seq<(Seq<char>, ValueV)>,
                                _,
                            >(e@));
                        }
                        return Err(e);
                    },
                }
            }
            proof {
                assert(fsv.skip(st.0@.len() as int) =~= Seq::empty());
                assert(spec_read_fields(m0, fm0, fsv.skip(st.0@.len() as int), a) == Ok::<_, ErrV>(
                    Seq::<(Seq<char>, ValueV)>::empty(),
                ));
                assert(record_view(entries@) + Seq::empty() =~= record_view(entries@));
            }
            Ok(Value::Record(entries))
        },
        Type::Collection(el, n) => {
            let ghost elv = type_view(**el);
            let ghost m0 = mem.contents();
            let ghost fm0 = mem.fail_msg();
            let elsize = el.size();
            let mut items: Vec<Value> = Vec::new();
            let mut i: u32 = 0;
            while i < *n
                invariant
                    *ty == Type::Collection(*el, *n),
                    ty@ == TypeV::Collection(Box::new(elv), *n),
                    wf_v(elv),
                    elv == type_view(**el),
                    elsize == size_v(elv),
                    (*n) * size_v(elv) <= u32::MAX,
                    *mem == *old(mem),
                    m0 == mem.contents(),
                    fm0 == mem.fail_msg(),
                    i <= *n,
                    items@.len() == i,
                    spec_read_elems(m0, fm0, elv, a, 0, *n as nat) == (match spec_read_elems(
                        m0,
                        fm0,
                        elv,
                        a,
                        i as nat,
                        *n as nat,
                    ) {
                        Ok(rest) => Ok::<_, ErrV>(sequence_view(items@) + rest),
                        Err(e) => Err::<Seq<ValueV>, _>(e),
                    }),
                decreases *n - i,
            {
                proof {
                    assert(i * size_v(elv) <= (*n) * size_v(elv)) by (nonlinear_arith)
                        requires
                            0 <= i <= *n,
                            size_v(elv) >= 0,
                    ;
                    assert(decreases_to!(*ty => **el));
                }
                let step = i * elsize;
                let sub = a.wrapping_add(step as u64);
                match read_to_dyn(mem, &**el, sub) {
                    Ok(v) => {
                        let ghost ivs = items@;
                        items.push(v);
                        proof {
                            assert(items@.drop_last() =~= ivs);
                            assert(sequence_view(items@) == sequence_view(ivs).push(
                                value_view(v),
                            ));
                            if spec_read_elems(m0, fm0, elv, a, i as nat + 1, *n as nat) is Ok {
                                let rest = spec_read_elems(
                                    m0,
                                    fm0,
                                    elv,
                                    a,
                                    i as nat + 1,
                                    *n as nat,
                                )->Ok_0;
                                assert(sequence_view(ivs) + (seq![value_view(v)] + rest)
                                    =~= sequence_view(items@) + rest);
                            }
                        }
                        i += 1;
                    },
                    Err(e) => {
                        return Err(e);
                    },
                }
            }
            proof {
                assert(spec_read_elems(m0, fm0, elv, a, *n as nat, *n as nat) == Ok::<_, ErrV>(
                    Seq::<ValueV>::empty(),
                ));
                assert(sequence_view(items@) + Seq::empty() =~= sequence_view(items@));
            }
            Ok(Value::Sequence(items))
        },
    }
}

/// A value the given primitive descriptor can carry without loss: numbers
/// within the declared width, addresses within the declared width, float
/// bit patterns of the declared precision, and ASCII text of exactly the
/// declared length. A 64-bit unsigned magnitude with its high bit set has
/// no such value: the signed 64-bit container cannot carry it, which is
/// the documented limitation of the widening.
pub open spec fn representable(t: TypeV, v: ValueV) -> bool {
    match t {
        TypeV::UInt8 => v matches ValueV::Int(i) && 0 <= i < 0x100,
        TypeV::UInt16 => v matches ValueV::Int(i) && 0 <= i < 0x10000,
        TypeV::Int32 => v matches ValueV::Int(i) && i32::MIN <= i <= i32::MAX,
        TypeV::UInt32 => v matches ValueV::Int(i) && 0 <= i < 0x1_0000_0000,
        TypeV::Int64 => v is Int,
        TypeV::UInt64 => v matches ValueV::Int(i) && 0 <= i,
        TypeV::Fp32 => v is Float32,
        TypeV::Fp64 => v is Float64,
        TypeV::Address32 => v matches ValueV::Addr(a) && a < 0x1_0000_0000,
        TypeV::Address64 => v is Addr,
        TypeV::Text(len) => v matches ValueV::Text(s) && is_ascii_chars(s) && s.len() == len,
        TypeV::WideText(len) => v matches ValueV::Text(s) && is_ascii_chars(s) && s.len() == len,
        _ => false,
    }
}

/// Writing a representable value with a primitive descriptor and reading
/// it back at the same address yields the value unchanged.
pub proof fn lemma_prim_round_trip(m: Map<int, u8>, fm: Seq<char>, t: TypeV, a: u64, v: ValueV)
    requires
        representable(t, v),
        spec_write(m, fm, t, a, v).0 is Ok,
    ensures
        spec_read(spec_write(m, fm, t, a, v).1, fm, t, a) == Ok::<_, ErrV>(v),
{
    let m2 = spec_write(m, fm, t, a, v).1;
    assert(m2.dom() =~= m.dom());
    vstd::bytes::lemma_auto_spec_u16_to_from_le_bytes();
    vstd::bytes::lemma_auto_spec_u32_to_from_le_bytes();
    vstd::bytes::lemma_auto_spec_u64_to_from_le_bytes();
    match t {
        TypeV::UInt8 => {
            let i = v->Int_0;
            assert(bytes_at(m2, a as int, 1) =~= seq![(i as u8)]);
            assert((i as u8) as i64 == i);
        },
        TypeV::UInt16 => {
            let i = v->Int_0;
            assert(bytes_at(m2, a as int, 2) =~= spec_u16_to_le_bytes(i as u16));
            assert((i as u16) as i64 == i);
        },
        TypeV::Int32 => {
            let i = v->Int_0;
            assert(bytes_at(m2, a as int, 4) =~= spec_u32_to_le_bytes(i as u32));
            assert(i32::MIN <= i <= i32::MAX ==> ((i as u32) as i32) as i64 == i) by (bit_vector);
        },
        TypeV::UInt32 => {
            let i = v->Int_0;
            assert(bytes_at(m2, a as int, 4) =~= spec_u32_to_le_bytes(i as u32));
            assert(0 <= i < 0x1_0000_0000 ==> (i as u32) as i64 == i) by (bit_vector);
        },
        TypeV::Int64 => {
            let i = v->Int_0;
            assert(bytes_at(m2, a as int, 8) =~= spec_u64_to_le_bytes(i as u64));
            assert(((i as u64) as i64) == i) by (bit_vector);
        },
        TypeV::UInt64 => {
            let i = v->Int_0;
            assert(bytes_at(m2, a as int, 8) =~= spec_u64_to_le_bytes(i as u64));
            assert(((i as u64) as i64) == i) by (bit_vector);
        },
        TypeV::Fp32 => {
            let b = v->Float32_0;
            assert(bytes_at(m2, a as int, 4) =~= spec_u32_to_le_bytes(b));
        },
        TypeV::Fp64 => {
            let b = v->Float64_0;
            assert(bytes_at(m2, a as int, 8) =~= spec_u64_to_le_bytes(b));
        },
        TypeV::Address32 => {
            let x = v->Addr_0;
            assert(bytes_at(m2, a as int, 4) =~= spec_u32_to_le_bytes(x as u32));
            assert(x < 0x1_0000_0000 ==> (x as u32) as u64 == x) by (bit_vector);
        },
        TypeV::Address64 => {
            let x = v->Addr_0;
            assert(bytes_at(m2, a as int, 8) =~= spec_u64_to_le_bytes(x));
        },
        TypeV::Text(len) => {
            let s = v->Text_0;
            assert(bytes_at(m2, a as int, len as nat) =~= ascii_bytes_of(s));
            assert forall|i: int| 0 <= i < s.len() implies ascii_bytes_of(s)[i] < 0x80 by {
                assert('\0' <= s[i] <= '\u{7f}');
            }
            assert(bytes_ascii(ascii_bytes_of(s)));
            assert forall|i: int| 0 <= i < s.len() implies chars_of_bytes(ascii_bytes_of(s))[i]
                == s[i] by {
                assert('\0' <= s[i] <= '\u{7f}');
            }
            assert(chars_of_bytes(ascii_bytes_of(s)) =~= s);
        },
        TypeV::WideText(len) => {
            let s = v->Text_0;
            assert(bytes_at(m2, a as int, 2 * len as nat) =~= wide_bytes_of(s));
            assert forall|i: int| 0 <= i < len implies #[trigger] wide_bytes_of(s)[2 * i] < 0x80
                && wide_bytes_of(s)[2 * i + 1] == 0 by {
                assert((2 * i) % 2 == 0 && (2 * i) / 2 == i);
                assert((2 * i + 1) % 2 == 1);
                assert('\0' <= s[i] <= '\u{7f}');
            }
            assert(wide_bytes_ascii(wide_bytes_of(s), len as nat));
            assert forall|i: int| 0 <= i < len implies chars_of_wide_bytes(
                wide_bytes_of(s),
                len as nat,
            )[i] == s[i] by {
                assert((2 * i) % 2 == 0 && (2 * i) / 2 == i);
                assert('\0' <= s[i] <= '\u{7f}');
            }
            assert(chars_of_wide_bytes(wide_bytes_of(s), len as nat) =~= s);
        },
        _ => {},
    }
}

/// The documented widening limitation, pinned: an unsigned 64-bit number
/// with its high bit set reads back as a negative signed value.
pub proof fn lemma_uint64_widening(m: Map<int, u8>, fm: Seq<char>, a: u64)
    requires
        region_in(m, a as int, 8),
        spec_u64_from_le_bytes(bytes_at(m, a as int, 8)) >= 0x8000_0000_0000_0000,
    ensures
        spec_read(m, fm, TypeV::UInt64, a) is Ok,
        spec_read(m, fm, TypeV::UInt64, a)->Ok_0 matches ValueV::Int(i) && i < 0,
{
    let u = spec_u64_from_le_bytes(bytes_at(m, a as int, 8));
    assert(u >= 0x8000_0000_0000_0000 ==> (u as i64) < 0) by (bit_vector);
}

/// Store the bytes at `a`, turning a backend failure into a codec error.
fn store<M: MemoryAccess>(mem: &mut M, a: u64, b: &[u8]) -> (r: Result<(), CodecError>)
    ensures
        final(mem).fail_msg() == old(mem).fail_msg(),
        wres(r) == put_bytes(old(mem).contents(), old(mem).fail_msg(), a, b@).0,
        final(mem).contents() == put_bytes(old(mem).contents(), old(mem).fail_msg(), a, b@).1,
{
    match mem.write_bytes(a, b) {
        Ok(_) => Ok(()),
        Err(e) => Err(CodecError::MemoryAccess { addr: e.addr, msg: e.msg }),
    }
}

/// First entry of this name in the record, in entry order.
fn lookup_value<'a>(entries: &'a Vec<(String, Value)>, name: &String) -> (r: Option<&'a Value>)
    ensures
        match r {
            Some(v) => rec_lookup(record_view(entries@), name@) == Some(value_view(*v)),
            None => rec_lookup(record_view(entries@), name@) is None,
        },
{
    let ghost rv = record_view(entries@);
    proof {
        lemma_record_view(entries@);
        assert(rv.skip(0) =~= rv);
    }
    let mut i: usize = 0;
    while i < entries.len()
        invariant
            rv == record_view(entries@),
            rv.len() == entries@.len(),
            forall|j: int|
                0 <= j < entries@.len() ==> rv[j] == (entries@[j].0@, value_view(entries@[j].1)),
            i <= entries@.len(),
            rec_lookup(rv, name@) == rec_lookup(rv.skip(i as int), name@),
        decreases entries@.len() - i,
    {
        let e = &entries[i];
        proof {
            assert(rv.skip(i as int)[0] == rv[i as int]);
        }
        if e.0 == *name {
            return Some(&e.1);
        }
        proof {
            assert(rv.skip(i as int).drop_first() =~= rv.skip(i as int + 1));
        }
        i += 1;
    }
    proof {
        assert(rv.skip(entries@.len() as int) =~= Seq::<(Seq<char>, ValueV)>::empty());
    }
    None
}

/// Write the value `val` to memory at `a` as the layout `ty` describes.
/// The result and the memory afterwards are exactly what `spec_write` says;
/// recursion is fail-fast, and bytes stored before a failure stay stored.
#[verifier::rlimit(100)]
pub fn write_from_dyn<M: MemoryAccess>(mem: &mut M, ty: &Type, a: u64, val: &Value) -> (r: Result<
    (),
    CodecError,
>)
    requires
        wf_v(ty@),
    ensures
        final(mem).fail_msg() == old(mem).fail_msg(),
        wres(r) == spec_write(old(mem).contents(), old(mem).fail_msg(), ty@, a, val@).0,
        final(mem).contents() == spec_write(old(mem).contents(), old(mem).fail_msg(), ty@, a, val@).1,
    decreases *ty,
{
    match ty {
        Type::UInt8 => match val {
            Value::Int(i) => {
                let mut buf: Vec<u8> = Vec::new();
                buf.push(#[verifier::truncate] (*i as u8));
                proof {
                    assert(buf@ =~= seq![(i as u8)]);
                }
                store(mem, a, buf.as_slice())
            },
            _ => Err(CodecError::WrongKind),
        },
        Type::UInt16 => match val {
            Value::Int(i) => store(
                mem,
                a,
                u16_to_le_bytes(#[verifier::truncate] (*i as u16)).as_slice(),
            ),
            _ => Err(CodecError::WrongKind),
        },
        Type::Int32 => match val {
            Value::Int(i) => store(
                mem,
                a,
                u32_to_le_bytes(#[verifier::truncate] (*i as u32)).as_slice(),
            ),
            _ => Err(CodecError::WrongKind),
        },
        Type::UInt32 => match val {
            Value::Int(i) => store(
                mem,
                a,
                u32_to_le_bytes(#[verifier::truncate] (*i as u32)).as_slice(),
            ),
            _ => Err(CodecError::WrongKind),
        },
        Type::Fp32 => match val {
            Value::Float32(b) => store(mem, a, u32_to_le_bytes(*b).as_slice()),
            _ => Err(CodecError::WrongKind),
        },
        Type::Address32 => match val {
            Value::Addr(x) => store(
                mem,
                a,
                u32_to_le_bytes(#[verifier::truncate] (*x as u32)).as_slice(),
            ),
            Value::Int(i) => store(
                mem,
                a,
                u32_to_le_bytes(#[verifier::truncate] (*i as u32)).as_slice(),
            ),
            _ => Err(CodecError::WrongKind),
        },
        Type::Pointer32(inner) => match fetch(mem, a, 4) {
            Ok(b) => {
                let target = u32_from_le_bytes(b.as_slice()) as u64;
                proof {
                    assert(decreases_to!(*ty => **inner));
                }
                write_from_dyn(mem, &**inner, target, val)
            },
            Err(e) => Err(e),
        },
        Type::Int64 => match val {
            Value::Int(i) => store(
                mem,
                a,
                u64_to_le_bytes(#[verifier::truncate] (*i as u64)).as_slice(),
            ),
            _ => Err(CodecError::WrongKind),
        },
        Type::UInt64 => match val {
            Value::Int(i) => store(
                mem,
                a,
                u64_to_le_bytes(#[verifier::truncate] (*i as u64)).as_slice(),
            ),
            _ => Err(CodecError::WrongKind),
        },
        Type::Fp64 => match val {
            Value::Float64(b) => store(mem, a, u64_to_le_bytes(*b).as_slice()),
            _ => Err(CodecError::WrongKind),
        },
        Type::Address64 => match val {
            Value::Addr(x) => store(mem, a, u64_to_le_bytes(*x).as_slice()),
            Value::Int(i) => store(
                mem,
                a,
                u64_to_le_bytes(#[verifier::truncate] (*i as u64)).as_slice(),
            ),
            _ => Err(CodecError::WrongKind),
        },
        Type::Pointer64(inner) => match fetch(mem, a, 8) {
            Ok(b) => {
                let target = u64_from_le_bytes(b.as_slice());
                proof {
                    assert(decreases_to!(*ty => **inner));
                }
                write_from_dyn(mem, &**inner, target, val)
            },
            Err(e) => Err(e),
        },
        Type::Text(len) => match val {
            Value::Text(s) => {
                let sref = s.as_str();
                if !sref.is_ascii() {
                    return Err(CodecError::Decode { addr: a });
                }
                proof {
                    vstd::string::is_ascii_spec_bytes(sref);
                }
                let bytes = sref.as_bytes();
                if bytes.len() as u64 != *len as u64 {
                    return Err(
                        CodecError::WrongLength { expected: *len, actual: bytes.len() as u64 },
                    );
                }
                proof {
                    assert(bytes@ =~= ascii_bytes_of(s@));
                }
                store(mem, a, bytes)
            },
            _ => Err(CodecError::WrongKind),
        },
        Type::WideText(len) => match val {
            Value::Text(s) => {
                let sref = s.as_str();
                if !sref.is_ascii() {
                    return Err(CodecError::Decode { addr: a });
                }
                proof {
                    vstd::string::is_ascii_spec_bytes(sref);
                }
                let bytes = sref.as_bytes();
                if bytes.len() as u64 != *len as u64 {
                    return Err(
                        CodecError::WrongLength { expected: *len, actual: bytes.len() as u64 },
                    );
                }
                let mut buf: Vec<u8> = Vec::new();
                let mut i: usize = 0;
                while i < bytes.len()
                    invariant
                        is_ascii_chars(s@),
                        bytes@.len() == s@.len(),
                        forall|j: int| 0 <= j < s@.len() ==> bytes@[j] == (s@[j] as u8),
                        i <= bytes@.len(),
                        buf@.len() == 2 * i,
                        forall|j: int|
                            0 <= j < 2 * i ==> buf@[j] == (if j % 2 == 0 {
                                s@[j / 2] as u8
                            } else {
                                0u8
                            }),
                    decreases bytes@.len() - i,
                {
                    buf.push(bytes[i]);
                    buf.push(0u8);
                    i += 1;
                }
                proof {
                    assert(buf@ =~= wide_bytes_of(s@));
                }
                store(mem, a, buf.as_slice())
            },
            _ => Err(CodecError::WrongKind),
        },
        Type::Struct(st) => match val {
            Value::Record(entries) => {
                let ghost fsv = fields_view(st.0@);
                let ghost ev = record_view(entries@);
                let ghost m0 = mem.contents();
                let ghost fm0 = mem.fail_msg();
                proof {
                    lemma_fields_view(st.0@);
                    assert(fsv.skip(0) =~= fsv);
                }
                let mut i: usize = 0;
                while i < st.0.len()
                    invariant
                        *ty == Type::Struct(*st),
                        *val == Value::Record(*entries),
                        ty@ == TypeV::Struct(fsv),
                        val@ == ValueV::Record(ev),
                        struct_wf_v(fsv),
                        fsv == fields_view(st.0@),
                        fsv.len() == st.0@.len(),
                        forall|j: int|
                            0 <= j < st.0@.len() ==> fsv[j] == (
                                st.0@[j].0,
                                crate::native::field_view(st.0@[j].1),
                            ),
                        ev == record_view(entries@),
                        m0 == old(mem).contents(),
                        fm0 == old(mem).fail_msg(),
                        mem.fail_msg() == fm0,
                        i <= st.0@.len(),
                        spec_write_fields(m0, fm0, fsv, a, ev) == spec_write_fields(
                            mem.contents(),
                            fm0,
                            fsv.skip(i as int),
                            a,
                            ev,
                        ),
                    decreases st.0@.len() - i,
                {
                    let off = st.0[i].0;
                    let fld = &st.0[i].1;
                    let sub = a.wrapping_add(off as u64);
                    let ghost before = fsv.skip(i as int);
                    proof {
                        assert(before[0] == fsv[i as int]);
                        assert(before.drop_first() =~= fsv.skip(i as int + 1));
                        assert(wf_v(fsv[i as int].1.ty));
                        assert(fsv[i as int].1.ty == type_view(st.0@[i as int].1.ty));
                        assert(decreases_to!(st.0 => st.0@));
                        assert(decreases_to!(st.0@ => st.0@[i as int]));
                        assert(decreases_to!(*ty => st.0@[i as int].1.ty));
                    }
                    let ghost mcur = mem.contents();
                    match lookup_value(entries, &fld.name) {
                        Some(v) => {
                            proof {
                                assert(rec_lookup(ev, before[0].1.name) == Some(value_view(*v)));
                            }
                            match write_from_dyn(mem, &fld.ty, sub, v) {
                                Ok(_) => {
                                    proof {
                                        assert(spec_write_fields(mcur, fm0, before, a, ev)
                                            == spec_write_fields(
                                            mem.contents(),
                                            fm0,
                                            fsv.skip(i as int + 1),
                                            a,
                                            ev,
                                        ));
                                    }
                                },
                                Err(e) => {
                                    proof {
                                        assert(spec_write_fields(mcur, fm0, before, a, ev) == (
                                            Err::<(), ErrV>(e@),
                                            mem.contents(),
                                        ));
                                    }
                                    return Err(e);
                                },
                            }
                        },
                        None => {
                            proof {
                                assert(rec_lookup(ev, before[0].1.name) is None);
                                assert(spec_write_fields(mcur, fm0, before, a, ev) == (
                                    Err::<(), ErrV>(ErrV::MissingField { name: before[0].1.name }),
                                    mem.contents(),
                                ));
                            }
                            return Err(
                                CodecError::MissingField { name: fld.name.clone() },
                            );
                        },
                    }
                    i += 1;
                }
                proof {
                    assert(fsv.skip(st.0@.len() as int) =~= Seq::<
                        (u32, crate::native::FieldV),
                    >::empty());
                }
                Ok(())
            },
            _ => Err(CodecError::WrongKind),
        },
        Type::Collection(el, n) => match val {
            Value::Sequence(items) => {
                let ghost elv = type_view(**el);
                let ghost iv = sequence_view(items@);
                let ghost m0 = mem.contents();
                let ghost fm0 = mem.fail_msg();
                proof {
                    lemma_sequence_view(items@);
                }
                if items.len() as u64 != *n as u64 {
                    return Err(
                        CodecError::WrongLength { expected: *n, actual: items.len() as u64 },
                    );
                }
                let elsize = el.size();
                let mut i: usize = 0;
                while i < items.len()
                    invariant
                        *ty == Type::Collection(*el, *n),
                        *val == Value::Sequence(*items),
                        ty@ == TypeV::Collection(Box::new(elv), *n),
                        val@ == ValueV::Sequence(iv),
                        wf_v(elv),
                        elv == type_view(**el),
                        elsize == size_v(elv),
                        (*n) * size_v(elv) <= u32::MAX,
                        iv == sequence_view(items@),
                        iv.len() == items@.len(),
                        forall|j: int| 0 <= j < items@.len() ==> iv[j] == value_view(items@[j]),
                        items@.len() == *n,
                        m0 == old(mem).contents(),
                        fm0 == old(mem).fail_msg(),
                        mem.fail_msg() == fm0,
                        i <= items@.len(),
                        spec_write_elems(m0, fm0, elv, a, iv, 0) == spec_write_elems(
                            mem.contents(),
                            fm0,
                            elv,
                            a,
                            iv,
                            i as nat,
                        ),
                    decreases items@.len() - i,
                {
                    proof {
                        assert(i * size_v(elv) <= (*n) * size_v(elv)) by (nonlinear_arith)
                            requires
                                0 <= i <= (*n) as int,
                                size_v(elv) >= 0,
                        ;
                        assert(decreases_to!(*ty => **el));
                    }
                    let step = (i as u32) * elsize;
                    let sub = a.wrapping_add(step as u64);
                    let v = &items[i];
                    let ghost mcur = mem.contents();
                    match write_from_dyn(mem, &**el, sub, v) {
                        Ok(_) => {
                            proof {
                                assert(spec_write_elems(mcur, fm0, elv, a, iv, i as nat)
                                    == spec_write_elems(
                                    mem.contents(),
                                    fm0,
                                    elv,
                                    a,
                                    iv,
                                    i as nat + 1,
                                ));
                            }
                        },
                        Err(e) => {
                            proof {
                                assert(spec_write_elems(mcur, fm0, elv, a, iv, i as nat) == (
                                    Err::<(), ErrV>(e@),
                                    mem.contents(),
                                ));
                            }
                            return Err(e);
                        },
                    }
                    i += 1;
                }
                Ok(())
            },
            _ => Err(CodecError::WrongKind),
        },
    }
}

} // verus!
