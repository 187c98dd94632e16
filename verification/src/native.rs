//! The type-descriptor model: a closed, recursively defined set of binary
//! layout descriptors, struct field maps keyed by byte offset, and the size
//! function over descriptors.

use vstd::prelude::*;

verus! {

/// Mathematical form of a layout descriptor, used by all contracts.
pub enum TypeV {
    UInt8,
    UInt16,
    Int32,
    UInt32,
    Fp32,
    Address32,
    Pointer32(Box<TypeV>),
    Int64,
    UInt64,
    Fp64,
    Address64,
    Pointer64(Box<TypeV>),
    Text(u32),
    WideText(u32),
    Struct(Seq<(u32, FieldV)>),
    Collection(Box<TypeV>, u32),
}

/// Mathematical form of a named field.
pub struct FieldV {
    pub name: Seq<char>,
    pub ty: TypeV,
}

/// Byte size of a descriptor: primitives have their fixed width, text and
/// wide text have their declared length, a struct ends where its
/// highest-offset field ends, and a collection is `count` elements in a row.
pub open spec fn size_v(t: TypeV) -> nat
    decreases t,
{
    match t {
        TypeV::UInt8 => 1,
        TypeV::UInt16 => 2,
        TypeV::Int32 => 4,
        TypeV::UInt32 => 4,
        TypeV::Fp32 => 4,
        TypeV::Address32 => 4,
        TypeV::Pointer32(_) => 4,
        TypeV::Int64 => 8,
        TypeV::UInt64 => 8,
        TypeV::Fp64 => 8,
        TypeV::Address64 => 8,
        TypeV::Pointer64(_) => 8,
        TypeV::Text(len) => len as nat,
        TypeV::WideText(len) => len as nat,
        TypeV::Struct(fs) => struct_size_v(fs),
        TypeV::Collection(el, n) => (n * size_v(*el)) as nat,
    }
}

/// Size of a struct's field map: 0 when empty, otherwise the offset of the
/// highest-offset field plus that field's own size.
pub open spec fn struct_size_v(fs: Seq<(u32, FieldV)>) -> nat
    decreases fs,
{
    if fs.len() == 0 {
        0
    } else {
        (fs.last().0 + size_v(fs.last().1.ty)) as nat
    }
}

/// Field maps are ordered by strictly ascending byte offset, so offsets are
/// also unique.
pub open spec fn fields_sorted(fs: Seq<(u32, FieldV)>) -> bool {
    forall|i: int, j: int| 0 <= i < j < fs.len() ==> fs[i].0 < fs[j].0
}

/// Well-formed field map: sorted, every field's type well formed, and the
/// struct's size representable in 32 bits.
pub open spec fn struct_wf_v(fs: Seq<(u32, FieldV)>) -> bool
    decreases fs,
{
    &&& fields_sorted(fs)
    &&& (forall|i: int| 0 <= i < fs.len() ==> wf_v(#[trigger] fs[i].1.ty))
    &&& struct_size_v(fs) <= u32::MAX
}

/// Well-formed descriptor: every nested size computation stays within 32
/// bits, and every struct's field map is sorted by offset.
pub open spec fn wf_v(t: TypeV) -> bool
    decreases t,
{
    match t {
        TypeV::Pointer32(inner) => wf_v(*inner),
        TypeV::Pointer64(inner) => wf_v(*inner),
        TypeV::Struct(fs) => struct_wf_v(fs),
        TypeV::Collection(el, n) => wf_v(*el) && n * size_v(*el) <= u32::MAX,
        _ => true,
    }
}

pub proof fn lemma_wf_size_bound(t: TypeV)
    requires
        wf_v(t),
    ensures
        size_v(t) <= u32::MAX,
{
    reveal_with_fuel(wf_v, 2);
    reveal_with_fuel(size_v, 2);
}

/// A layout descriptor: the executable form.
#[derive(Debug)]
pub enum Type {
    UInt8,
    UInt16,
    Int32,
    UInt32,
    Fp32,
    Address32,
    Pointer32(Box<Type>),
    Int64,
    UInt64,
    Fp64,
    Address64,
    Pointer64(Box<Type>),
    Text(u32),
    WideText(u32),
    Struct(Struct),
    Collection(Box<Type>, u32),
}

/// A named field inside a struct descriptor.
#[derive(Debug)]
pub struct Field {
    pub name: String,
    pub ty: Type,
}

/// A struct descriptor: fields keyed by byte offset, kept in strictly
/// ascending offset order.
#[derive(Debug)]
pub struct Struct(pub Vec<(u32, Field)>);

pub open spec fn type_view(t: Type) -> TypeV
    decreases t,
{
    match t {
        Type::UInt8 => TypeV::UInt8,
        Type::UInt16 => TypeV::UInt16,
        Type::Int32 => TypeV::Int32,
        Type::UInt32 => TypeV::UInt32,
        Type::Fp32 => TypeV::Fp32,
        Type::Address32 => TypeV::Address32,
        Type::Pointer32(inner) => TypeV::Pointer32(Box::new(type_view(*inner))),
        Type::Int64 => TypeV::Int64,
        Type::UInt64 => TypeV::UInt64,
        Type::Fp64 => TypeV::Fp64,
        Type::Address64 => TypeV::Address64,
        Type::Pointer64(inner) => TypeV::Pointer64(Box::new(type_view(*inner))),
        Type::Text(len) => TypeV::Text(len),
        Type::WideText(len) => TypeV::WideText(len),
        Type::Struct(st) => TypeV::Struct(fields_view(st.0@)),
        Type::Collection(el, n) => TypeV::Collection(Box::new(type_view(*el)), n),
    }
}

pub open spec fn field_view(f: Field) -> FieldV
    decreases f,
{
    FieldV { name: f.name@, ty: type_view(f.ty) }
}

pub open spec fn fields_view(fs: Seq<(u32, Field)>) -> Seq<(u32, FieldV)>
    decreases fs,
{
    if fs.len() == 0 {
        Seq::empty()
    } else {
        fields_view(fs.drop_last()).push((fs.last().0, field_view(fs.last().1)))
    }
}

pub proof fn lemma_fields_view(fs: Seq<(u32, Field)>)
    ensures
        fields_view(fs).len() == fs.len(),
        forall|i: int|
            0 <= i < fs.len() ==> fields_view(fs)[i] == (fs[i].0, field_view(fs[i].1)),
    decreases fs,
{
    if fs.len() > 0 {
        lemma_fields_view(fs.drop_last());
    }
}

impl View for Type {
    type V = TypeV;

    open spec fn view(&self) -> TypeV {
        type_view(*self)
    }
}

impl View for Field {
    type V = FieldV;

    open spec fn view(&self) -> FieldV {
        field_view(*self)
    }
}

impl View for Struct {
    type V = Seq<(u32, FieldV)>;

    open spec fn view(&self) -> Seq<(u32, FieldV)> {
        fields_view(self.0@)
    }
}

impl Type {
    /// Size in bytes.
    pub fn size(&self) -> (s: u32)
        requires
            wf_v(self@),
        ensures
            s == size_v(self@),
        decreases *self,
    {
        match self {
            Type::UInt8 => 1,
            Type::UInt16 => 2,
            Type::Int32 => 4,
            Type::UInt32 => 4,
            Type::Fp32 => 4,
            Type::Address32 => 4,
            Type::Pointer32(_) => 4,
            Type::Int64 => 8,
            Type::UInt64 => 8,
            Type::Fp64 => 8,
            Type::Address64 => 8,
            Type::Pointer64(_) => 8,
            Type::Text(len) => *len,
            Type::WideText(len) => *len,
            Type::Struct(st) => st.size(),
            Type::Collection(el, n) => {
                let es = el.size();
                proof {
                    lemma_wf_size_bound(self@);
                }
                *n * es
            }
        }
    }
}

/// Where a field keyed by `off` goes in an offset-sorted field map: the
/// length of the longest prefix whose offsets are below `off`.
pub open spec fn insert_pos(fs: Seq<(u32, FieldV)>, off: u32) -> int
    decreases fs,
{
    if fs.len() == 0 {
        0
    } else if fs[0].0 < off {
        1 + insert_pos(fs.drop_first(), off)
    } else {
        0
    }
}

/// A field map after keying `f` by `off`: a field already keyed by `off` is
/// silently replaced, otherwise `f` is placed so that ascending offset
/// order is kept.
pub open spec fn spec_insert(fs: Seq<(u32, FieldV)>, off: u32, f: FieldV) -> Seq<(u32, FieldV)> {
    let p = insert_pos(fs, off);
    if p < fs.len() && fs[p].0 == off {
        fs.update(p, (off, f))
    } else {
        fs.insert(p, (off, f))
    }
}

pub proof fn lemma_insert_pos(fs: Seq<(u32, FieldV)>, off: u32)
    ensures
        0 <= insert_pos(fs, off) <= fs.len(),
        forall|j: int| 0 <= j < insert_pos(fs, off) ==> fs[j].0 < off,
        insert_pos(fs, off) < fs.len() ==> fs[insert_pos(fs, off)].0 >= off,
    decreases fs,
{
    if fs.len() > 0 && fs[0].0 < off {
        lemma_insert_pos(fs.drop_first(), off);
        assert forall|j: int| 0 <= j < insert_pos(fs, off) implies fs[j].0 < off by {
            if j > 0 {
                assert(fs.drop_first()[j - 1] == fs[j]);
            }
        }
    }
}

/// Inserting into a sorted field map keeps it sorted.
pub proof fn lemma_insert_sorted(fs: Seq<(u32, FieldV)>, off: u32, f: FieldV)
    requires
        fields_sorted(fs),
    ensures
        fields_sorted(spec_insert(fs, off, f)),
{
    lemma_insert_pos(fs, off);
    let p = insert_pos(fs, off);
    let out = spec_insert(fs, off, f);
    if p < fs.len() && fs[p].0 == off {
        assert forall|i: int, j: int| 0 <= i < j < out.len() implies out[i].0 < out[j].0 by {
            assert(fs[i].0 < fs[j].0);
        }
    } else {
        assert forall|i: int, j: int| 0 <= i < j < out.len() implies out[i].0 < out[j].0 by {
            if i < p && j == p {
                assert(out[i] == fs[i]);
            } else if i == p && j > p {
                assert(out[j] == fs[j - 1]);
                assert(fs[j - 1].0 >= off);
                assert(fs[j - 1].0 != off || p >= fs.len());
                if p < fs.len() {
                    if j - 1 == p {
                        assert(fs[p].0 > off);
                    } else {
                        assert(fs[p].0 >= off && fs[p].0 != off);
                        assert(fs[j - 1].0 > fs[p].0 || j - 1 == p);
                    }
                }
            } else if i < p && j > p {
                assert(out[i] == fs[i] && out[j] == fs[j - 1]);
                if j - 1 == i {
                    assert(fs[i].0 < off);
                    assert(out[j].0 >= off);
                } else {
                    assert(fs[i].0 < fs[j - 1].0);
                }
            } else if i > p && j > p {
                assert(out[i] == fs[i - 1] && out[j] == fs[j - 1]);
                assert(fs[i - 1].0 < fs[j - 1].0);
            }
        }
    }
}

/// The first field keyed exactly by `off`.
pub open spec fn lookup_offset(fs: Seq<(u32, FieldV)>, off: u32) -> Option<FieldV>
    decreases fs,
{
    if fs.len() == 0 {
        None
    } else if fs[0].0 == off {
        Some(fs[0].1)
    } else {
        lookup_offset(fs.drop_first(), off)
    }
}

/// The first field of this name, in ascending offset order.
pub open spec fn lookup_name(fs: Seq<(u32, FieldV)>, name: Seq<char>) -> Option<FieldV>
    decreases fs,
{
    if fs.len() == 0 {
        None
    } else if fs[0].1.name == name {
        Some(fs[0].1)
    } else {
        lookup_name(fs.drop_first(), name)
    }
}

impl Clone for Type {
    /// A clone is structurally identical to the original.
    fn clone(&self) -> (res: Self)
        ensures
            res@ == self@,
        decreases *self,
    {
        match self {
            Type::UInt8 => Type::UInt8,
            Type::UInt16 => Type::UInt16,
            Type::Int32 => Type::Int32,
            Type::UInt32 => Type::UInt32,
            Type::Fp32 => Type::Fp32,
            Type::Address32 => Type::Address32,
            Type::Pointer32(inner) => Type::Pointer32(Box::new((**inner).clone())),
            Type::Int64 => Type::Int64,
            Type::UInt64 => Type::UInt64,
            Type::Fp64 => Type::Fp64,
            Type::Address64 => Type::Address64,
            Type::Pointer64(inner) => Type::Pointer64(Box::new((**inner).clone())),
            Type::Text(len) => Type::Text(*len),
            Type::WideText(len) => Type::WideText(*len),
            Type::Struct(st) => Type::Struct(st.clone()),
            Type::Collection(el, n) => Type::Collection(Box::new((**el).clone()), *n),
        }
    }
}

impl Clone for Field {
    /// A clone is structurally identical to the original.
    fn clone(&self) -> (res: Self)
        ensures
            res@ == self@,
        decreases *self,
    {
        Field { name: self.name.clone(), ty: self.ty.clone() }
    }
}

impl Clone for Struct {
    /// A clone is structurally identical to the original.
    fn clone(&self) -> (res: Self)
        ensures
            res@ == self@,
        decreases *self,
    {
        let mut fields: Vec<(u32, Field)> = Vec::new();
        let mut i: usize = 0;
        while i < self.0.len()
            invariant
                i <= self.0@.len(),
                fields@.len() == i,
                forall|j: int|
                    0 <= j < i ==> (fields@[j].0 == self.0@[j].0 && field_view(fields@[j].1)
                        == field_view(self.0@[j].1)),
            decreases self.0@.len() - i,
        {
            let off = self.0[i].0;
            let f = self.0[i].1.clone();
            fields.push((off, f));
            i += 1;
        }
        let res = Struct(fields);
        proof {
            lemma_fields_view(fields@);
            lemma_fields_view(self.0@);
            assert(res@ =~= self@);
        }
        res
    }
}

impl Struct {
    pub fn new(fields: Vec<(u32, Field)>) -> (s: Self)
        ensures
            s@ == fields_view(fields@),
    {
        Struct(fields)
    }

    /// Size in bytes: where the highest-offset field ends.
    pub fn size(&self) -> (s: u32)
        requires
            struct_wf_v(self@),
        ensures
            s == struct_size_v(self@),
        decreases *self,
    {
        proof {
            lemma_fields_view(self.0@);
        }
        let n = self.0.len();
        if n == 0 {
            0
        } else {
            let off = self.0[n - 1].0;
            let fsz = self.0[n - 1].1.ty.size();
            off + fsz
        }
    }
}

/// The name of a descriptor's variant.
pub open spec fn variant_name(t: TypeV) -> Seq<char> {
    match t {
        TypeV::UInt8 => "UInt8"@,
        TypeV::UInt16 => "UInt16"@,
        TypeV::Int32 => "Int32"@,
        TypeV::UInt32 => "UInt32"@,
        TypeV::Fp32 => "Fp32"@,
        TypeV::Address32 => "Address32"@,
        TypeV::Pointer32(_) => "Pointer32"@,
        TypeV::Int64 => "Int64"@,
        TypeV::UInt64 => "UInt64"@,
        TypeV::Fp64 => "Fp64"@,
        TypeV::Address64 => "Address64"@,
        TypeV::Pointer64(_) => "Pointer64"@,
        TypeV::Text(_) => "String"@,
        TypeV::WideText(_) => "WideString"@,
        TypeV::Struct(_) => "Struct"@,
        TypeV::Collection(_, _) => "Collection"@,
    }
}

impl Type {
    /// The variant's name, as scripts see it.
    pub fn get_type(&self) -> (r: String)
        ensures
            r@ == variant_name(self@),
    {
        match self {
            Type::UInt8 => "UInt8".to_owned(),
            Type::UInt16 => "UInt16".to_owned(),
            Type::Int32 => "Int32".to_owned(),
            Type::UInt32 => "UInt32".to_owned(),
            Type::Fp32 => "Fp32".to_owned(),
            Type::Address32 => "Address32".to_owned(),
            Type::Pointer32(_) => "Pointer32".to_owned(),
            Type::Int64 => "Int64".to_owned(),
            Type::UInt64 => "UInt64".to_owned(),
            Type::Fp64 => "Fp64".to_owned(),
            Type::Address64 => "Address64".to_owned(),
            Type::Pointer64(_) => "Pointer64".to_owned(),
            Type::Text(_) => "String".to_owned(),
            Type::WideText(_) => "WideString".to_owned(),
            Type::Struct(_) => "Struct".to_owned(),
            Type::Collection(_, _) => "Collection".to_owned(),
        }
    }

    /// The size as a script number.
    pub fn get_size(&self) -> (s: i64)
        requires
            wf_v(self@),
        ensures
            s == size_v(self@),
    {
        self.size() as i64
    }

    /// The field map of a struct descriptor, or nothing for any other
    /// descriptor.
    pub fn get_native_struct(&self) -> (r: Option<Struct>)
        ensures
            match r {
                Some(st) => self@ == TypeV::Struct(st@),
                None => !(self@ is Struct),
            },
    {
        match self {
            Type::Struct(st) => Some(st.clone()),
            _ => None,
        }
    }

    /// Structural equality of descriptors.
    pub fn eq(&self, other: &Type) -> (r: bool)
        ensures
            r == (self@ == other@),
        decreases *self,
    {
        match (self, other) {
            (Type::UInt8, Type::UInt8) => true,
            (Type::UInt16, Type::UInt16) => true,
            (Type::Int32, Type::Int32) => true,
            (Type::UInt32, Type::UInt32) => true,
            (Type::Fp32, Type::Fp32) => true,
            (Type::Address32, Type::Address32) => true,
            (Type::Int64, Type::Int64) => true,
            (Type::UInt64, Type::UInt64) => true,
            (Type::Fp64, Type::Fp64) => true,
            (Type::Address64, Type::Address64) => true,
            (Type::Pointer32(a), Type::Pointer32(b)) => (**a).eq(&**b),
            (Type::Pointer64(a), Type::Pointer64(b)) => (**a).eq(&**b),
            (Type::Text(a), Type::Text(b)) => a == b,
            (Type::WideText(a), Type::WideText(b)) => a == b,
            (Type::Struct(a), Type::Struct(b)) => a.eq_struct(b),
            (Type::Collection(a, n), Type::Collection(b, m)) => n == m && (**a).eq(&**b),
            _ => false,
        }
    }

    /// Structural inequality of descriptors.
    pub fn neq(&self, other: &Type) -> (r: bool)
        ensures
            r == (self@ != other@),
    {
        !self.eq(other)
    }
}

impl Struct {
    /// Structural equality of field maps.
    pub fn eq_struct(&self, other: &Struct) -> (r: bool)
        ensures
            r == (self@ == other@),
        decreases *self,
    {
        proof {
            lemma_fields_view(self.0@);
            lemma_fields_view(other.0@);
        }
        if self.0.len() != other.0.len() {
            return false;
        }
        let mut i: usize = 0;
        while i < self.0.len()
            invariant
                self.0@.len() == other.0@.len(),
                fields_view(self.0@).len() == self.0@.len(),
                fields_view(other.0@).len() == other.0@.len(),
                forall|j: int|
                    0 <= j < self.0@.len() ==> fields_view(self.0@)[j] == (
                        self.0@[j].0,
                        field_view(self.0@[j].1),
                    ),
                forall|j: int|
                    0 <= j < other.0@.len() ==> fields_view(other.0@)[j] == (
                        other.0@[j].0,
                        field_view(other.0@[j].1),
                    ),
                i <= self.0@.len(),
                forall|j: int|
                    0 <= j < i ==> fields_view(self.0@)[j] == fields_view(other.0@)[j],
            decreases self.0@.len() - i,
        {
            let a = &self.0[i];
            let b = &other.0[i];
            proof {
                assert(decreases_to!(self.0 => self.0@));
                assert(decreases_to!(self.0@ => self.0@[i as int]));
                assert(decreases_to!(*self => self.0@[i as int].1.ty));
            }
            if a.0 != b.0 || !(a.1.name == b.1.name) || !a.1.ty.eq(&b.1.ty) {
                proof {
                    assert(fields_view(self.0@)[i as int] != fields_view(other.0@)[i as int]);
                }
                return false;
            }
            i += 1;
        }
        proof {
            assert(self@ =~= other@);
        }
        true
    }

    /// Key `field` by `offset`: a field already keyed by `offset` is
    /// replaced, otherwise the field is placed in ascending offset order.
    pub fn insert(&mut self, offset: u32, field: Field)
        ensures
            final(self)@ == spec_insert(old(self)@, offset, field@),
    {
        proof {
            lemma_fields_view(self.0@);
            lemma_insert_pos(self@, offset);
        }
        let ghost fsv = fields_view(self.0@);
        let mut i: usize = 0;
        while i < self.0.len()
            invariant
                *self == *old(self),
                fsv == fields_view(self.0@),
                fsv.len() == self.0@.len(),
                forall|j: int|
                    0 <= j < self.0@.len() ==> fsv[j] == (self.0@[j].0, field_view(self.0@[j].1)),
                i <= self.0@.len(),
                forall|j: int| 0 <= j < i ==> fsv[j].0 < offset,
            decreases self.0@.len() - i,
        {
            proof {
                lemma_insert_pos(fsv, offset);
            }
            if self.0[i].0 >= offset {
                proof {
                    lemma_insert_pos_at(fsv, offset, i as int);
                }
                if self.0[i].0 == offset {
                    self.0.set(i, (offset, field));
                    proof {
                        lemma_fields_view(self.0@);
                        assert(fields_view(self.0@) =~= fsv.update(
                            i as int,
                            (offset, field_view(field)),
                        ));
                    }
                } else {
                    self.0.insert(i, (offset, field));
                    proof {
                        lemma_fields_view(self.0@);
                        assert(fields_view(self.0@) =~= fsv.insert(
                            i as int,
                            (offset, field_view(field)),
                        ));
                    }
                }
                return ;
            }
            i += 1;
        }
        proof {
            lemma_insert_pos_at(fsv, offset, fsv.len() as int);
        }
        self.0.push((offset, field));
        proof {
            lemma_fields_view(self.0@);
            assert(fields_view(self.0@) =~= fsv.insert(fsv.len() as int, (offset, field_view(field))));
        }
    }

    /// The field keyed exactly by `offset`.
    pub fn get_field(&self, offset: u32) -> (r: Option<&Field>)
        ensures
            match r {
                Some(f) => lookup_offset(self@, offset) == Some(f@),
                None => lookup_offset(self@, offset) is None,
            },
    {
        proof {
            lemma_fields_view(self.0@);
            assert(fields_view(self.0@).skip(0) =~= fields_view(self.0@));
        }
        let ghost fsv = fields_view(self.0@);
        let mut i: usize = 0;
        while i < self.0.len()
            invariant
                fsv == fields_view(self.0@),
                fsv.len() == self.0@.len(),
                forall|j: int|
                    0 <= j < self.0@.len() ==> fsv[j] == (self.0@[j].0, field_view(self.0@[j].1)),
                i <= self.0@.len(),
                lookup_offset(fsv, offset) == lookup_offset(fsv.skip(i as int), offset),
            decreases self.0@.len() - i,
        {
            proof {
                assert(fsv.skip(i as int)[0] == fsv[i as int]);
                assert(fsv.skip(i as int).drop_first() =~= fsv.skip(i as int + 1));
            }
            if self.0[i].0 == offset {
                return Some(&self.0[i].1);
            }
            i += 1;
        }
        proof {
            assert(fsv.skip(fsv.len() as int) =~= Seq::<(u32, FieldV)>::empty());
        }
        None
    }

    /// The first field of this name, in ascending offset order.
    pub fn get_field_from_name(&self, field_name: &str) -> (r: Option<&Field>)
        ensures
            match r {
                Some(f) => lookup_name(self@, field_name@) == Some(f@),
                None => lookup_name(self@, field_name@) is None,
            },
    {
        proof {
            lemma_fields_view(self.0@);
            assert(fields_view(self.0@).skip(0) =~= fields_view(self.0@));
        }
        let needle = field_name.to_owned();
        let ghost fsv = fields_view(self.0@);
        let mut i: usize = 0;
        while i < self.0.len()
            invariant
                fsv == fields_view(self.0@),
                fsv.len() == self.0@.len(),
                forall|j: int|
                    0 <= j < self.0@.len() ==> fsv[j] == (self.0@[j].0, field_view(self.0@[j].1)),
                needle@ == field_name@,
                i <= self.0@.len(),
                lookup_name(fsv, field_name@) == lookup_name(fsv.skip(i as int), field_name@),
            decreases self.0@.len() - i,
        {
            proof {
                assert(fsv.skip(i as int)[0] == fsv[i as int]);
                assert(fsv.skip(i as int).drop_first() =~= fsv.skip(i as int + 1));
            }
            if self.0[i].1.name == needle {
                return Some(&self.0[i].1);
            }
            i += 1;
        }
        proof {
            assert(fsv.skip(fsv.len() as int) =~= Seq::<(u32, FieldV)>::empty());
        }
        None
    }
}

/// The insertion position is `p` exactly when the offsets before `p` are
/// below `off` and the offset at `p`, if any, is not.
pub proof fn lemma_insert_pos_at(fs: Seq<(u32, FieldV)>, off: u32, p: int)
    requires
        0 <= p <= fs.len(),
        forall|j: int| 0 <= j < p ==> fs[j].0 < off,
        p < fs.len() ==> fs[p].0 >= off,
    ensures
        insert_pos(fs, off) == p,
    decreases fs,
{
    if fs.len() > 0 && fs[0].0 < off {
        lemma_insert_pos_at(fs.drop_first(), off, p - 1);
    }
}

impl Field {
    pub fn new(name: String, ty: Type) -> (f: Self)
        ensures
            f@ == (FieldV { name: name@, ty: ty@ }),
    {
        Field { name, ty }
    }
}

} // verus!
