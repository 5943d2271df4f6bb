//! The type algebra and its layout rules.
//!
//! A [`CType`] describes the shape of a C type.  Its view is a [`TypeModel`],
//! a mathematical tree over which size, alignment and validity are defined;
//! the executable queries are proved to compute exactly those functions.
//!
//! The family of aliases that POSIX gives to integers (`ino_t`, `off_t`,
//! `time_t` and the others) takes eight bytes in a layout, whatever the
//! platform; a value of such a type is read and written as wide, and as
//! signed, as the `libc` crate declares the alias for the platform.

use vstd::prelude::*;

verus! {

/// The size in bytes of a machine word, which is also the size of an address.
pub open spec fn word_size() -> nat {
    vstd::layout::size_of::<usize>()
}

/// The alignment of a machine word, which is also the alignment of an address.
pub open spec fn word_align() -> nat {
    vstd::layout::align_of::<usize>()
}

/// A word is four or eight bytes wide and its alignment is a power of two
/// that divides its size.
pub proof fn lemma_word_layout()
    ensures
        word_size() == 4 || word_size() == 8,
        word_size() * 8 == usize::BITS,
        word_align() == 1 || word_align() == 2 || word_align() == 4 || word_align() == 8,
        word_align() <= word_size(),
        word_size() % word_align() == 0,
{
    broadcast use vstd::layout::layout_of_primitives;
    broadcast use vstd::layout::align_properties;
    broadcast use vstd::layout::align_nonzero;

    let a = vstd::layout::align_of::<usize>();
    let s = vstd::layout::size_of::<usize>();
    assert(s % a == 0);
    assert(a > 0);
    assert(a <= s) by {
        if a > s {
            vstd::arithmetic::div_mod::lemma_small_mod(s, a);
        }
    }
    assert(a != 3 && a != 5 && a != 6 && a != 7) by {
        if s == 4 {
            assert(4nat % 3 != 0 && 4nat % 5 != 0 && 4nat % 6 != 0 && 4nat % 7 != 0);
        } else {
            assert(8nat % 3 != 0 && 8nat % 5 != 0 && 8nat % 6 != 0 && 8nat % 7 != 0);
        }
    }
}

/// Size in bytes of an address on this machine.
pub fn pointer_size() -> (n: usize)
    ensures
        n == word_size(),
        n == 4 || n == 8,
{
    proof {
        lemma_word_layout();
    }
    core::mem::size_of::<usize>()
}

/// Alignment in bytes of an address on this machine.
pub fn pointer_alignment() -> (n: usize)
    ensures
        n == word_align(),
        n == 1 || n == 2 || n == 4 || n == 8,
{
    proof {
        lemma_word_layout();
    }
    core::mem::align_of::<usize>()
}


/// The types that have no parts: the integers, `bool`, the two floating
/// types and `void`.
#[derive(Clone, Copy, Debug, PartialEq, Eq, Structural)]
pub enum Scalar {
    Bool,
    Char,
    UChar,
    Short,
    UShort,
    Int,
    UInt,
    Long,
    ULong,
    LongLong,
    ULongLong,
    Int8,
    Int16,
    Int32,
    Int64,
    UInt8,
    UInt16,
    UInt32,
    UInt64,
    InoT,
    DevT,
    GidT,
    ModeT,
    NlinkT,
    UidT,
    OffT,
    PidT,
    UsecondsT,
    SusecondsT,
    BlksizeT,
    BlkcntT,
    TimeT,
    SizeT,
    SSizeT,
    Float,
    Double,
    Void,
}

/// How the bytes of a scalar are read and written.
#[derive(Clone, Copy, Debug, PartialEq, Eq, Structural)]
pub enum ScalarClass {
    /// A two's complement integer of `width` bytes.
    Integer { width: usize, signed: bool },
    /// One byte, zero for `false`.
    Boolean,
    /// Four bytes holding an IEEE 754 single.
    Single,
    /// Eight bytes holding an IEEE 754 double.
    Double,
    /// No bytes at all.
    Void,
}

impl Scalar {
    /// The size of the scalar in bytes.
    pub open spec fn spec_size(self) -> nat {
        match self {
            Scalar::Bool | Scalar::Char | Scalar::UChar | Scalar::Int8 | Scalar::UInt8 => 1,
            Scalar::Short | Scalar::UShort | Scalar::Int16 | Scalar::UInt16 => 2,
            Scalar::Int | Scalar::UInt | Scalar::Int32 | Scalar::UInt32 | Scalar::Float => 4,
            Scalar::Long | Scalar::ULong | Scalar::SizeT | Scalar::SSizeT => word_size(),
            Scalar::Void => 0,
            _ => 8,
        }
    }

    /// The alignment of the scalar in bytes.
    pub open spec fn spec_alignment(self) -> nat {
        match self {
            Scalar::Bool | Scalar::Char | Scalar::UChar | Scalar::Int8 | Scalar::UInt8
            | Scalar::Void => 1,
            Scalar::Short | Scalar::UShort | Scalar::Int16 | Scalar::UInt16 => 2,
            Scalar::Int | Scalar::UInt | Scalar::Int32 | Scalar::UInt32 | Scalar::Float => 4,
            Scalar::SizeT | Scalar::SSizeT => word_align(),
            _ => 8,
        }
    }

    /// Whether an integer scalar is signed (`false` for the others).  The
    /// aliases of the platform are signed where the platform has them so.
    pub open spec fn spec_signed(self) -> bool {
        match self {
            Scalar::Char | Scalar::Short | Scalar::Int | Scalar::Long | Scalar::LongLong
            | Scalar::Int8 | Scalar::Int16 | Scalar::Int32 | Scalar::Int64 | Scalar::SSizeT =>
                true,
            Scalar::InoT => libc::ino_t::MIN != 0,
            Scalar::DevT => libc::dev_t::MIN != 0,
            Scalar::GidT => libc::gid_t::MIN != 0,
            Scalar::ModeT => libc::mode_t::MIN != 0,
            Scalar::NlinkT => libc::nlink_t::MIN != 0,
            Scalar::UidT => libc::uid_t::MIN != 0,
            Scalar::OffT => libc::off_t::MIN != 0,
            Scalar::PidT => libc::pid_t::MIN != 0,
            Scalar::UsecondsT => libc::useconds_t::MIN != 0,
            Scalar::SusecondsT => libc::suseconds_t::MIN != 0,
            Scalar::BlksizeT => libc::blksize_t::MIN != 0,
            Scalar::BlkcntT => libc::blkcnt_t::MIN != 0,
            Scalar::TimeT => libc::time_t::MIN != 0,
            _ => false,
        }
    }

    /// The number of bytes of the scalar that are read and written.  That
    /// is its size, but for the aliases of the platform: these take eight
    /// bytes in a layout and are read and written as wide as the platform
    /// has them.
    pub open spec fn spec_width(self) -> nat {
        match self {
            Scalar::InoT => vstd::layout::size_of::<libc::ino_t>(),
            Scalar::DevT => vstd::layout::size_of::<libc::dev_t>(),
            Scalar::GidT => vstd::layout::size_of::<libc::gid_t>(),
            Scalar::ModeT => vstd::layout::size_of::<libc::mode_t>(),
            Scalar::NlinkT => vstd::layout::size_of::<libc::nlink_t>(),
            Scalar::UidT => vstd::layout::size_of::<libc::uid_t>(),
            Scalar::OffT => vstd::layout::size_of::<libc::off_t>(),
            Scalar::PidT => vstd::layout::size_of::<libc::pid_t>(),
            Scalar::UsecondsT => vstd::layout::size_of::<libc::useconds_t>(),
            Scalar::SusecondsT => vstd::layout::size_of::<libc::suseconds_t>(),
            Scalar::BlksizeT => vstd::layout::size_of::<libc::blksize_t>(),
            Scalar::BlkcntT => vstd::layout::size_of::<libc::blkcnt_t>(),
            Scalar::TimeT => vstd::layout::size_of::<libc::time_t>(),
            _ => self.spec_size(),
        }
    }

    /// How the scalar's bytes are read and written.
    pub open spec fn spec_class(self) -> ScalarClass {
        match self {
            Scalar::Bool => ScalarClass::Boolean,
            Scalar::Float => ScalarClass::Single,
            Scalar::Double => ScalarClass::Double,
            Scalar::Void => ScalarClass::Void,
            _ => ScalarClass::Integer {
                width: self.spec_width() as usize,
                signed: self.spec_signed(),
            },
        }
    }

    /// The size of the scalar in bytes.
    pub fn size(self) -> (n: usize)
        ensures
            n == self.spec_size(),
            n <= 8,
    {
        match self {
            Scalar::Bool | Scalar::Char | Scalar::UChar | Scalar::Int8 | Scalar::UInt8 => 1,
            Scalar::Short | Scalar::UShort | Scalar::Int16 | Scalar::UInt16 => 2,
            Scalar::Int | Scalar::UInt | Scalar::Int32 | Scalar::UInt32 | Scalar::Float => 4,
            Scalar::Long | Scalar::ULong | Scalar::SizeT | Scalar::SSizeT => pointer_size(),
            Scalar::Void => 0,
            _ => 8,
        }
    }

    /// The alignment of the scalar in bytes.
    pub fn alignment(self) -> (n: usize)
        ensures
            n == self.spec_alignment(),
            n == 1 || n == 2 || n == 4 || n == 8,
    {
        match self {
            Scalar::Bool | Scalar::Char | Scalar::UChar | Scalar::Int8 | Scalar::UInt8
            | Scalar::Void => 1,
            Scalar::Short | Scalar::UShort | Scalar::Int16 | Scalar::UInt16 => 2,
            Scalar::Int | Scalar::UInt | Scalar::Int32 | Scalar::UInt32 | Scalar::Float => 4,
            Scalar::SizeT | Scalar::SSizeT => pointer_alignment(),
            _ => 8,
        }
    }

    /// Whether an integer scalar is signed (`false` for the others).
    pub fn signed(self) -> (b: bool)
        ensures
            b == self.spec_signed(),
    {
        match self {
            Scalar::Char | Scalar::Short | Scalar::Int | Scalar::Long | Scalar::LongLong
            | Scalar::Int8 | Scalar::Int16 | Scalar::Int32 | Scalar::Int64 | Scalar::SSizeT =>
                true,
            Scalar::InoT => libc::ino_t::MIN != 0,
            Scalar::DevT => libc::dev_t::MIN != 0,
            Scalar::GidT => libc::gid_t::MIN != 0,
            Scalar::ModeT => libc::mode_t::MIN != 0,
            Scalar::NlinkT => libc::nlink_t::MIN != 0,
            Scalar::UidT => libc::uid_t::MIN != 0,
            Scalar::OffT => libc::off_t::MIN != 0,
            Scalar::PidT => libc::pid_t::MIN != 0,
            Scalar::UsecondsT => libc::useconds_t::MIN != 0,
            Scalar::SusecondsT => libc::suseconds_t::MIN != 0,
            Scalar::BlksizeT => libc::blksize_t::MIN != 0,
            Scalar::BlkcntT => libc::blkcnt_t::MIN != 0,
            Scalar::TimeT => libc::time_t::MIN != 0,
            _ => false,
        }
    }

    /// The number of bytes of the scalar that are read and written: no more
    /// than its size.
    pub fn width(self) -> (n: usize)
        ensures
            n == self.spec_width(),
            n <= self.spec_size(),
            self != Scalar::Void ==> n == 1 || n == 2 || n == 4 || n == 8,
    {
        broadcast use vstd::layout::layout_of_primitives;

        match self {
            Scalar::InoT => core::mem::size_of::<libc::ino_t>(),
            Scalar::DevT => core::mem::size_of::<libc::dev_t>(),
            Scalar::GidT => core::mem::size_of::<libc::gid_t>(),
            Scalar::ModeT => core::mem::size_of::<libc::mode_t>(),
            Scalar::NlinkT => core::mem::size_of::<libc::nlink_t>(),
            Scalar::UidT => core::mem::size_of::<libc::uid_t>(),
            Scalar::OffT => core::mem::size_of::<libc::off_t>(),
            Scalar::PidT => core::mem::size_of::<libc::pid_t>(),
            Scalar::UsecondsT => core::mem::size_of::<libc::useconds_t>(),
            Scalar::SusecondsT => core::mem::size_of::<libc::suseconds_t>(),
            Scalar::BlksizeT => core::mem::size_of::<libc::blksize_t>(),
            Scalar::BlkcntT => core::mem::size_of::<libc::blkcnt_t>(),
            Scalar::TimeT => core::mem::size_of::<libc::time_t>(),
            _ => self.size(),
        }
    }

    /// How the scalar's bytes are read and written.
    pub fn class(self) -> (c: ScalarClass)
        ensures
            c == self.spec_class(),
            c matches ScalarClass::Integer { width, .. } ==> width == 1 || width == 2 || width == 4
                || width == 8,
    {
        match self {
            Scalar::Bool => ScalarClass::Boolean,
            Scalar::Float => ScalarClass::Single,
            Scalar::Double => ScalarClass::Double,
            Scalar::Void => ScalarClass::Void,
            _ => ScalarClass::Integer { width: self.width(), signed: self.signed() },
        }
    }
}

/// A C type: a scalar, or a pointer, array, aggregate, function or alias
/// built from other types.
#[derive(Debug, PartialEq)]
pub enum CType {
    Bool,
    Char,
    UChar,
    Short,
    UShort,
    Int,
    UInt,
    Long,
    ULong,
    LongLong,
    ULongLong,
    Int8,
    Int16,
    Int32,
    Int64,
    UInt8,
    UInt16,
    UInt32,
    UInt64,
    InoT,
    DevT,
    GidT,
    ModeT,
    NlinkT,
    UidT,
    OffT,
    PidT,
    UsecondsT,
    SusecondsT,
    BlksizeT,
    BlkcntT,
    TimeT,
    SizeT,
    SSizeT,
    Float,
    Double,
    Void,
    /// An address of a value of the inner type.
    Ptr(Box<CType>),
    /// That many values of the inner type, one after the other.
    Array(Box<CType>, usize),
    /// An array whose length is given only when a value is made.
    VLA(Box<CType>),
    /// Named fields, each at its own offset.
    Struct(String, Vec<CField>),
    /// Named fields that share their storage.
    Union(String, Vec<CField>),
    /// A function from the listed parameter types to the first type.
    Function(Box<CType>, Vec<CType>),
    /// Another name for the inner type.
    Typedef(String, Box<CType>),
}

/// A field of a struct or a union.
#[derive(Debug, PartialEq)]
pub struct CField {
    pub name: String,
    pub ctype: CType,
    pub offset: usize,
}

/// What a [`CType`] stands for: the same tree, over mathematical values.
pub enum TypeModel {
    Scalar(Scalar),
    Ptr(Box<TypeModel>),
    Array(Box<TypeModel>, nat),
    VLA(Box<TypeModel>),
    Struct(Seq<char>, Seq<FieldModel>),
    Union(Seq<char>, Seq<FieldModel>),
    Function(Box<TypeModel>, Seq<TypeModel>),
    Typedef(Seq<char>, Box<TypeModel>),
}

/// What a [`CField`] stands for.
pub struct FieldModel {
    pub name: Seq<char>,
    pub ctype: TypeModel,
    pub offset: nat,
}

/// The smallest multiple of `align` that is not below `n`.
pub open spec fn round_up(n: nat, align: nat) -> nat {
    if align == 0 || n % align == 0 {
        n
    } else {
        (n + (align - n % align)) as nat
    }
}

/// The greater of two numbers.
pub open spec fn max_nat(a: nat, b: nat) -> nat {
    if a >= b {
        a
    } else {
        b
    }
}

/// The greatest alignment among the first `n` fields, and 1 where there is none.
pub open spec fn max_field_alignment(fields: Seq<FieldModel>, n: nat) -> nat
    decreases fields, n,
{
    if n == 0 || n > fields.len() {
        1
    } else {
        max_nat(
            max_field_alignment(fields, (n - 1) as nat),
            fields[n - 1].ctype.alignment(),
        )
    }
}

/// The greatest size among the first `n` fields.
pub open spec fn max_field_size(fields: Seq<FieldModel>, n: nat) -> nat
    decreases fields, n,
{
    if n == 0 || n > fields.len() {
        0
    } else {
        max_nat(max_field_size(fields, (n - 1) as nat), fields[n - 1].ctype.size())
    }
}

/// The furthest byte that any of the first `n` fields reaches: the greatest
/// `offset + size`.
pub open spec fn max_field_end(fields: Seq<FieldModel>, n: nat) -> nat
    decreases fields, n,
{
    if n == 0 || n > fields.len() {
        0
    } else {
        max_nat(
            max_field_end(fields, (n - 1) as nat),
            fields[n - 1].offset + fields[n - 1].ctype.size(),
        )
    }
}

/// Whether the first `n` fields are representable.
pub open spec fn fields_representable(fields: Seq<FieldModel>, n: nat) -> bool
    decreases fields, n,
{
    if n == 0 || n > fields.len() {
        true
    } else {
        fields_representable(fields, (n - 1) as nat) && fields[n - 1].ctype.representable()
    }
}

impl TypeModel {
    /// The alignment of the type in bytes.
    pub open spec fn alignment(self) -> nat
        decreases self, 0nat,
    {
        match self {
            TypeModel::Scalar(s) => s.spec_alignment(),
            TypeModel::Ptr(_) | TypeModel::Function(_, _) => word_align(),
            TypeModel::Array(inner, _) | TypeModel::VLA(inner) | TypeModel::Typedef(_, inner) =>
                inner.alignment(),
            TypeModel::Struct(_, fields) | TypeModel::Union(_, fields) => max_field_alignment(
                fields,
                fields.len(),
            ),
        }
    }

    /// The size of the type in bytes.
    ///
    /// A struct reaches from its start to the furthest end of a field, rounded
    /// up to its alignment; a union is as large as its largest field; an array
    /// holds its elements without gaps; an array of unknown length counts as
    /// empty.
    pub open spec fn size(self) -> nat
        decreases self, 0nat,
    {
        match self {
            TypeModel::Scalar(s) => s.spec_size(),
            TypeModel::Ptr(_) | TypeModel::Function(_, _) => word_size(),
            TypeModel::Array(inner, count) => inner.size() * count,
            TypeModel::VLA(_) => 0,
            TypeModel::Struct(_, fields) => round_up(
                max_field_end(fields, fields.len()),
                max_field_alignment(fields, fields.len()),
            ),
            TypeModel::Union(_, fields) => max_field_size(fields, fields.len()),
            TypeModel::Typedef(_, inner) => inner.size(),
        }
    }

    /// Whether the size of the type, and every size that its computation
    /// meets on the way, fits in a `usize`.
    pub open spec fn representable(self) -> bool
        decreases self, 0nat,
    {
        match self {
            TypeModel::Scalar(_) | TypeModel::Ptr(_) | TypeModel::Function(_, _)
            | TypeModel::VLA(_) => true,
            TypeModel::Array(inner, count) => inner.representable() && inner.size() * count
                <= usize::MAX,
            TypeModel::Struct(_, fields) => fields_representable(fields, fields.len())
                && self.size() <= usize::MAX,
            TypeModel::Union(_, fields) => fields_representable(fields, fields.len()),
            TypeModel::Typedef(_, inner) => inner.representable(),
        }
    }
}

/// The model of a type.
pub open spec fn type_model(t: CType) -> TypeModel
    decreases t,
{
    match t {
        CType::Ptr(inner) => TypeModel::Ptr(Box::new(type_model(*inner))),
        CType::Array(inner, count) => TypeModel::Array(
            Box::new(type_model(*inner)),
            count as nat,
        ),
        CType::VLA(inner) => TypeModel::VLA(Box::new(type_model(*inner))),
        CType::Struct(name, fields) => TypeModel::Struct(
            name@,
            Seq::new(
                fields@.len(),
                |i: int|
                    if 0 <= i < fields@.len() {
                        field_model(fields@[i])
                    } else {
                        arbitrary()
                    },
            ),
        ),
        CType::Union(name, fields) => TypeModel::Union(
            name@,
            Seq::new(
                fields@.len(),
                |i: int|
                    if 0 <= i < fields@.len() {
                        field_model(fields@[i])
                    } else {
                        arbitrary()
                    },
            ),
        ),
        CType::Function(ret, params) => TypeModel::Function(
            Box::new(type_model(*ret)),
            Seq::new(
                params@.len(),
                |i: int|
                    if 0 <= i < params@.len() {
                        type_model(params@[i])
                    } else {
                        arbitrary()
                    },
            ),
        ),
        CType::Typedef(name, inner) => TypeModel::Typedef(name@, Box::new(type_model(*inner))),
        _ => TypeModel::Scalar(scalar_of(t)),
    }
}

/// The model of a field.
pub open spec fn field_model(f: CField) -> FieldModel
    decreases f,
{
    FieldModel { name: f.name@, ctype: type_model(f.ctype), offset: f.offset as nat }
}

/// The scalar that a type without parts is (`Void` for the types with parts).
pub open spec fn scalar_of(t: CType) -> Scalar {
    match t {
        CType::Bool => Scalar::Bool,
        CType::Char => Scalar::Char,
        CType::UChar => Scalar::UChar,
        CType::Short => Scalar::Short,
        CType::UShort => Scalar::UShort,
        CType::Int => Scalar::Int,
        CType::UInt => Scalar::UInt,
        CType::Long => Scalar::Long,
        CType::ULong => Scalar::ULong,
        CType::LongLong => Scalar::LongLong,
        CType::ULongLong => Scalar::ULongLong,
        CType::Int8 => Scalar::Int8,
        CType::Int16 => Scalar::Int16,
        CType::Int32 => Scalar::Int32,
        CType::Int64 => Scalar::Int64,
        CType::UInt8 => Scalar::UInt8,
        CType::UInt16 => Scalar::UInt16,
        CType::UInt32 => Scalar::UInt32,
        CType::UInt64 => Scalar::UInt64,
        CType::InoT => Scalar::InoT,
        CType::DevT => Scalar::DevT,
        CType::GidT => Scalar::GidT,
        CType::ModeT => Scalar::ModeT,
        CType::NlinkT => Scalar::NlinkT,
        CType::UidT => Scalar::UidT,
        CType::OffT => Scalar::OffT,
        CType::PidT => Scalar::PidT,
        CType::UsecondsT => Scalar::UsecondsT,
        CType::SusecondsT => Scalar::SusecondsT,
        CType::BlksizeT => Scalar::BlksizeT,
        CType::BlkcntT => Scalar::BlkcntT,
        CType::TimeT => Scalar::TimeT,
        CType::SizeT => Scalar::SizeT,
        CType::SSizeT => Scalar::SSizeT,
        CType::Float => Scalar::Float,
        CType::Double => Scalar::Double,
        _ => Scalar::Void,
    }
}

impl View for CType {
    type V = TypeModel;

    open spec fn view(&self) -> TypeModel {
        type_model(*self)
    }
}

impl View for CField {
    type V = FieldModel;

    open spec fn view(&self) -> FieldModel {
        field_model(*self)
    }
}



/// The models of the fields of an aggregate, in their order.
pub open spec fn field_models(fields: Seq<CField>) -> Seq<FieldModel> {
    Seq::new(fields.len(), |i: int| field_model(fields[i]))
}

/// The models of a list of types, in their order.
pub open spec fn type_models(types: Seq<CType>) -> Seq<TypeModel> {
    Seq::new(types.len(), |i: int| type_model(types[i]))
}

/// The model of a struct is a struct of the models of its fields, and so
/// for a union and for the parameters of a function.
pub proof fn lemma_aggregate_models(t: CType)
    ensures
        t matches CType::Struct(name, fields) ==> t@ == TypeModel::Struct(
            name@,
            field_models(fields@),
        ),
        t matches CType::Union(name, fields) ==> t@ == TypeModel::Union(
            name@,
            field_models(fields@),
        ),
        t matches CType::Function(ret, params) ==> t@ == TypeModel::Function(
            Box::new(ret@),
            type_models(params@),
        ),
{
    match t {
        CType::Struct(name, fields) => {
            assert(t@->Struct_1 =~= field_models(fields@));
        },
        CType::Union(name, fields) => {
            assert(t@->Union_1 =~= field_models(fields@));
        },
        CType::Function(ret, params) => {
            assert(t@->Function_1 =~= type_models(params@));
        },
        _ => {},
    }
}

/// `round_up(n, align)` is a multiple of `align`, is not below `n`, and is
/// less than `align` above it: the smallest such multiple.
pub proof fn lemma_round_up(n: nat, align: nat)
    requires
        align > 0,
    ensures
        round_up(n, align) % align == 0,
        n <= round_up(n, align) < n + align,
{
    let r = n % align;
    if r != 0 {
        vstd::arithmetic::div_mod::lemma_fundamental_div_mod(n as int, align as int);
        let q = n as int / align as int;
        assert(n + (align - r) == align * (q + 1)) by (nonlinear_arith)
            requires
                n == align * q + r,
        ;
        vstd::arithmetic::div_mod::lemma_mod_multiples_basic(q + 1, align as int);
        assert((q + 1) * align == align * (q + 1)) by (nonlinear_arith);
    }
}

/// For the alignments that types have, rounding up is what the usual mask
/// computes: `(n + align - 1) & !(align - 1)`.
pub proof fn lemma_round_up_mask(n: u64, align: u64)
    requires
        align == 1 || align == 2 || align == 4 || align == 8,
        n <= u64::MAX - 8,
    ensures
        round_up(n as nat, align as nat) == ((n + align - 1) as u64) & !((align - 1) as u64),
{
    let up = (n + align - 1) as u64;
    if align == 1 {
        assert(up & !0u64 == up) by (bit_vector);
        assert(n as nat % 1 == 0);
    } else if align == 2 {
        assert(up & !1u64 == up - up % 2) by (bit_vector);
    } else if align == 4 {
        assert(up & !3u64 == up - up % 4) by (bit_vector);
    } else {
        assert(up & !7u64 == up - up % 8) by (bit_vector);
    }
}

/// The greatest alignment among fields is 1, 2, 4 or 8.
pub proof fn lemma_field_alignment(fields: Seq<FieldModel>, n: nat)
    ensures
        max_field_alignment(fields, n) == 1 || max_field_alignment(fields, n) == 2
            || max_field_alignment(fields, n) == 4 || max_field_alignment(fields, n) == 8,
    decreases fields, n,
{
    if n == 0 || n > fields.len() {
    } else {
        lemma_field_alignment(fields, (n - 1) as nat);
        lemma_alignment(fields[n - 1].ctype);
    }
}

/// The alignment of every type is 1, 2, 4 or 8: a power of two, never zero.
pub proof fn lemma_alignment(t: TypeModel)
    ensures
        t.alignment() == 1 || t.alignment() == 2 || t.alignment() == 4 || t.alignment() == 8,
    decreases t, 0nat,
{
    lemma_word_layout();
    match t {
        TypeModel::Scalar(_) => {},
        TypeModel::Ptr(_) | TypeModel::Function(_, _) => {},
        TypeModel::Array(inner, _) | TypeModel::VLA(inner) | TypeModel::Typedef(_, inner) => {
            lemma_alignment(*inner);
        },
        TypeModel::Struct(_, fields) | TypeModel::Union(_, fields) => {
            lemma_field_alignment(fields, fields.len());
        },
    }
}

impl CType {
    /// The scalar that this type is, if it has no parts.
    pub fn as_scalar(&self) -> (s: Option<Scalar>)
        ensures
            s == (match self@ {
                TypeModel::Scalar(k) => Some(k),
                _ => None,
            }),
    {
        match self {
            CType::Bool => Some(Scalar::Bool),
            CType::Char => Some(Scalar::Char),
            CType::UChar => Some(Scalar::UChar),
            CType::Short => Some(Scalar::Short),
            CType::UShort => Some(Scalar::UShort),
            CType::Int => Some(Scalar::Int),
            CType::UInt => Some(Scalar::UInt),
            CType::Long => Some(Scalar::Long),
            CType::ULong => Some(Scalar::ULong),
            CType::LongLong => Some(Scalar::LongLong),
            CType::ULongLong => Some(Scalar::ULongLong),
            CType::Int8 => Some(Scalar::Int8),
            CType::Int16 => Some(Scalar::Int16),
            CType::Int32 => Some(Scalar::Int32),
            CType::Int64 => Some(Scalar::Int64),
            CType::UInt8 => Some(Scalar::UInt8),
            CType::UInt16 => Some(Scalar::UInt16),
            CType::UInt32 => Some(Scalar::UInt32),
            CType::UInt64 => Some(Scalar::UInt64),
            CType::InoT => Some(Scalar::InoT),
            CType::DevT => Some(Scalar::DevT),
            CType::GidT => Some(Scalar::GidT),
            CType::ModeT => Some(Scalar::ModeT),
            CType::NlinkT => Some(Scalar::NlinkT),
            CType::UidT => Some(Scalar::UidT),
            CType::OffT => Some(Scalar::OffT),
            CType::PidT => Some(Scalar::PidT),
            CType::UsecondsT => Some(Scalar::UsecondsT),
            CType::SusecondsT => Some(Scalar::SusecondsT),
            CType::BlksizeT => Some(Scalar::BlksizeT),
            CType::BlkcntT => Some(Scalar::BlkcntT),
            CType::TimeT => Some(Scalar::TimeT),
            CType::SizeT => Some(Scalar::SizeT),
            CType::SSizeT => Some(Scalar::SSizeT),
            CType::Float => Some(Scalar::Float),
            CType::Double => Some(Scalar::Double),
            CType::Void => Some(Scalar::Void),
            _ => None,
        }
    }

    /// The type of a scalar.
    pub fn from_scalar(k: Scalar) -> (t: CType)
        ensures
            t@ == TypeModel::Scalar(k),
    {
        match k {
            Scalar::Bool => CType::Bool,
            Scalar::Char => CType::Char,
            Scalar::UChar => CType::UChar,
            Scalar::Short => CType::Short,
            Scalar::UShort => CType::UShort,
            Scalar::Int => CType::Int,
            Scalar::UInt => CType::UInt,
            Scalar::Long => CType::Long,
            Scalar::ULong => CType::ULong,
            Scalar::LongLong => CType::LongLong,
            Scalar::ULongLong => CType::ULongLong,
            Scalar::Int8 => CType::Int8,
            Scalar::Int16 => CType::Int16,
            Scalar::Int32 => CType::Int32,
            Scalar::Int64 => CType::Int64,
            Scalar::UInt8 => CType::UInt8,
            Scalar::UInt16 => CType::UInt16,
            Scalar::UInt32 => CType::UInt32,
            Scalar::UInt64 => CType::UInt64,
            Scalar::InoT => CType::InoT,
            Scalar::DevT => CType::DevT,
            Scalar::GidT => CType::GidT,
            Scalar::ModeT => CType::ModeT,
            Scalar::NlinkT => CType::NlinkT,
            Scalar::UidT => CType::UidT,
            Scalar::OffT => CType::OffT,
            Scalar::PidT => CType::PidT,
            Scalar::UsecondsT => CType::UsecondsT,
            Scalar::SusecondsT => CType::SusecondsT,
            Scalar::BlksizeT => CType::BlksizeT,
            Scalar::BlkcntT => CType::BlkcntT,
            Scalar::TimeT => CType::TimeT,
            Scalar::SizeT => CType::SizeT,
            Scalar::SSizeT => CType::SSizeT,
            Scalar::Float => CType::Float,
            Scalar::Double => CType::Double,
            Scalar::Void => CType::Void,
        }
    }

    /// The alignment requirement of this type, in bytes.
    pub fn alignment(&self) -> (a: usize)
        ensures
            a == self@.alignment(),
            a == 1 || a == 2 || a == 4 || a == 8,
        decreases self,
    {
        match self {
            CType::Ptr(_) | CType::Function(_, _) => pointer_alignment(),
            CType::Array(inner, _) | CType::Typedef(_, inner) | CType::VLA(inner) => {
                inner.alignment()
            },
            CType::Struct(_, fields) | CType::Union(_, fields) => {
                proof {
                    lemma_aggregate_models(*self);
                }
                let mut a: usize = 1;
                let mut i: usize = 0;
                while i < fields.len()
                    invariant
                        i <= fields.len(),
                        a == max_field_alignment(field_models(fields@), i as nat),
                        a == 1 || a == 2 || a == 4 || a == 8,
                        self matches CType::Struct(_, fs) ==> fs == fields,
                        self matches CType::Union(_, fs) ==> fs == fields,
                        self is Struct || self is Union,
                    decreases fields.len() - i,
                {
                    let fa = fields[i].ctype.alignment();
                    if fa > a {
                        a = fa;
                    }
                    i += 1;
                }
                a
            },
            _ => {
                match self.as_scalar() {
                    Some(k) => k.alignment(),
                    None => 1,
                }
            },
        }
    }

    /// The size of this type in bytes, or `None` where it does not fit in a
    /// `usize`.
    pub fn checked_size(&self) -> (r: Option<usize>)
        ensures
            r is Some <==> self@.representable(),
            r matches Some(n) ==> n == self@.size(),
        decreases self,
    {
        match self {
            CType::Ptr(_) | CType::Function(_, _) => Some(pointer_size()),
            CType::VLA(_) => Some(0),
            CType::Typedef(_, inner) => inner.checked_size(),
            CType::Array(inner, count) => {
                match inner.checked_size() {
                    Some(n) => n.checked_mul(*count),
                    None => None,
                }
            },
            CType::Union(_, fields) => {
                proof {
                    lemma_aggregate_models(*self);
                }
                let mut size: usize = 0;
                let mut i: usize = 0;
                while i < fields.len()
                    invariant
                        i <= fields.len(),
                        fields_representable(field_models(fields@), i as nat),
                        size == max_field_size(field_models(fields@), i as nat),
                        self matches CType::Union(_, fs) && fs == fields,
                        self@ matches TypeModel::Union(_, ms) && ms == field_models(fields@),
                    decreases fields.len() - i,
                {
                    match fields[i].ctype.checked_size() {
                        Some(n) => {
                            if n > size {
                                size = n;
                            }
                        },
                        None => {
                            proof {
                                lemma_fields_not_representable(
                                    field_models(fields@),
                                    i as nat,
                                    fields.len() as nat,
                                );
                            }
                            return None;
                        },
                    }
                    i += 1;
                }
                Some(size)
            },
            CType::Struct(_, fields) => {
                proof {
                    lemma_aggregate_models(*self);
                }
                let ghost models = field_models(fields@);
                let mut end: usize = 0;
                let mut i: usize = 0;
                while i < fields.len()
                    invariant
                        i <= fields.len(),
                        models == field_models(fields@),
                        fields_representable(models, i as nat),
                        end == max_field_end(models, i as nat),
                        self matches CType::Struct(_, fs) && fs == fields,
                        self@ matches TypeModel::Struct(_, ms) && ms == models,
                    decreases fields.len() - i,
                {
                    let reach = match fields[i].ctype.checked_size() {
                        Some(n) => fields[i].offset.checked_add(n),
                        None => {
                            proof {
                                lemma_fields_not_representable(
                                    models,
                                    i as nat,
                                    fields.len() as nat,
                                );
                            }
                            return None;
                        },
                    };
                    match reach {
                        Some(e) => {
                            if e > end {
                                end = e;
                            }
                        },
                        None => {
                            proof {
                                lemma_field_end_grows(models, (i + 1) as nat, fields.len() as nat);
                                lemma_field_alignment(models, fields.len() as nat);
                                lemma_round_up(
                                    max_field_end(models, fields.len() as nat),
                                    max_field_alignment(models, fields.len() as nat),
                                );
                            }
                            return None;
                        },
                    }
                    i += 1;
                }
                let align = self.alignment();
                proof {
                    lemma_round_up(end as nat, align as nat);
                }
                let rest = end % align;
                if rest == 0 {
                    Some(end)
                } else {
                    end.checked_add(align - rest)
                }
            },
            _ => {
                match self.as_scalar() {
                    Some(k) => Some(k.size()),
                    None => Some(0),
                }
            },
        }
    }

    /// The size of this type in bytes.
    pub fn size(&self) -> (n: usize)
        requires
            self@.representable(),
        ensures
            n == self@.size(),
    {
        match self.checked_size() {
            Some(n) => n,
            None => 0,
        }
    }
}

/// Where one of the first `n` fields is not representable, the fields are not.
pub proof fn lemma_fields_not_representable(fields: Seq<FieldModel>, i: nat, n: nat)
    requires
        i < n <= fields.len(),
        !fields[i as int].ctype.representable(),
    ensures
        !fields_representable(fields, n),
    decreases n,
{
    if n > i + 1 {
        lemma_fields_not_representable(fields, i, (n - 1) as nat);
    }
}

/// The furthest end among more fields is not nearer.
pub proof fn lemma_field_end_grows(fields: Seq<FieldModel>, i: nat, n: nat)
    requires
        i <= n <= fields.len(),
    ensures
        max_field_end(fields, i) <= max_field_end(fields, n),
    decreases n,
{
    if n > i {
        lemma_field_end_grows(fields, i, (n - 1) as nat);
    }
}


impl Clone for CField {
    /// A copy of the field, with the same model.
    fn clone(&self) -> (r: CField)
        ensures
            r@ == self@,
        decreases self,
    {
        CField { name: self.name.clone(), ctype: self.ctype.clone(), offset: self.offset }
    }
}

impl Clone for CType {
    /// A copy of the type, with the same model.
    fn clone(&self) -> (r: CType)
        ensures
            r@ == self@,
        decreases self,
    {
        match self {
            CType::Ptr(inner) => CType::Ptr(Box::new(CType::clone(inner))),
            CType::Array(inner, count) => CType::Array(Box::new(CType::clone(inner)), *count),
            CType::VLA(inner) => CType::VLA(Box::new(CType::clone(inner))),
            CType::Typedef(name, inner) => CType::Typedef(
                name.clone(),
                Box::new(CType::clone(inner)),
            ),
            CType::Struct(name, fields) => {
                let mut copy: Vec<CField> = Vec::new();
                let mut i: usize = 0;
                while i < fields.len()
                    invariant
                        i <= fields.len(),
                        copy@.len() == i,
                        forall|j: int| 0 <= j < i ==> (#[trigger] copy@[j])@ == fields@[j]@,
                        self matches CType::Struct(_, fs) && fs == fields,
                    decreases fields.len() - i,
                {
                    copy.push(CField::clone(&fields[i]));
                    i += 1;
                }
                let r = CType::Struct(name.clone(), copy);
                proof {
                    lemma_aggregate_models(r);
                    lemma_aggregate_models(*self);
                    assert(field_models(copy@) =~= field_models(fields@));
                }
                r
            },
            CType::Union(name, fields) => {
                let mut copy: Vec<CField> = Vec::new();
                let mut i: usize = 0;
                while i < fields.len()
                    invariant
                        i <= fields.len(),
                        copy@.len() == i,
                        forall|j: int| 0 <= j < i ==> (#[trigger] copy@[j])@ == fields@[j]@,
                        self matches CType::Union(_, fs) && fs == fields,
                    decreases fields.len() - i,
                {
                    copy.push(CField::clone(&fields[i]));
                    i += 1;
                }
                let r = CType::Union(name.clone(), copy);
                proof {
                    lemma_aggregate_models(r);
                    lemma_aggregate_models(*self);
                    assert(field_models(copy@) =~= field_models(fields@));
                }
                r
            },
            CType::Function(ret, params) => {
                let mut copy: Vec<CType> = Vec::new();
                let mut i: usize = 0;
                while i < params.len()
                    invariant
                        i <= params.len(),
                        copy@.len() == i,
                        forall|j: int| 0 <= j < i ==> (#[trigger] copy@[j])@ == params@[j]@,
                        self matches CType::Function(_, ps) && ps == params,
                    decreases params.len() - i,
                {
                    copy.push(CType::clone(&params[i]));
                    i += 1;
                }
                let r = CType::Function(Box::new(CType::clone(ret)), copy);
                proof {
                    lemma_aggregate_models(r);
                    lemma_aggregate_models(*self);
                    assert(type_models(copy@) =~= type_models(params@));
                }
                r
            },
            _ => {
                match self.as_scalar() {
                    Some(k) => CType::from_scalar(k),
                    None => CType::Void,
                }
            },
        }
    }
}

impl CType {
    /// Whether two types are the same: built alike from the same names,
    /// counts and offsets.
    pub fn same_as(&self, other: &CType) -> (b: bool)
        ensures
            b == (self@ == other@),
        decreases self,
    {
        match (self, other) {
            (CType::Ptr(a), CType::Ptr(b)) => a.same_as(b),
            (CType::VLA(a), CType::VLA(b)) => a.same_as(b),
            (CType::Array(a, n), CType::Array(b, m)) => *n == *m && a.same_as(b),
            (CType::Typedef(name_a, a), CType::Typedef(name_b, b)) => {
                *name_a == *name_b && a.same_as(b)
            },
            (CType::Struct(name_a, fields_a), CType::Struct(name_b, fields_b)) => {
                proof {
                    lemma_aggregate_models(*self);
                    lemma_aggregate_models(*other);
                }
                if !(*name_a == *name_b) || fields_a.len() != fields_b.len() {
                    assert(field_models(fields_a@).len() == fields_a@.len());
                    assert(field_models(fields_b@).len() == fields_b@.len());
                    return false;
                }
                let mut i: usize = 0;
                while i < fields_a.len()
                    invariant
                        i <= fields_a.len(),
                        fields_a.len() == fields_b.len(),
                        forall|j: int| 0 <= j < i ==> fields_a@[j]@ == fields_b@[j]@,
                        self matches CType::Struct(_, fs) && fs == fields_a,
                        self@ matches TypeModel::Struct(_, ms) && ms == field_models(fields_a@),
                        other@ matches TypeModel::Struct(_, ms) && ms == field_models(fields_b@),
                    decreases fields_a.len() - i,
                {
                    if !(fields_a[i].name == fields_b[i].name) || fields_a[i].offset
                        != fields_b[i].offset || !fields_a[i].ctype.same_as(&fields_b[i].ctype) {
                        assert(field_models(fields_a@)[i as int] != field_models(
                            fields_b@,
                        )[i as int]);
                        return false;
                    }
                    i += 1;
                }
                assert(field_models(fields_a@) =~= field_models(fields_b@));
                true
            },
            (CType::Union(name_a, fields_a), CType::Union(name_b, fields_b)) => {
                proof {
                    lemma_aggregate_models(*self);
                    lemma_aggregate_models(*other);
                }
                if !(*name_a == *name_b) || fields_a.len() != fields_b.len() {
                    assert(field_models(fields_a@).len() == fields_a@.len());
                    assert(field_models(fields_b@).len() == fields_b@.len());
                    return false;
                }
                let mut i: usize = 0;
                while i < fields_a.len()
                    invariant
                        i <= fields_a.len(),
                        fields_a.len() == fields_b.len(),
                        forall|j: int| 0 <= j < i ==> fields_a@[j]@ == fields_b@[j]@,
                        self matches CType::Union(_, fs) && fs == fields_a,
                        self@ matches TypeModel::Union(_, ms) && ms == field_models(fields_a@),
                        other@ matches TypeModel::Union(_, ms) && ms == field_models(fields_b@),
                    decreases fields_a.len() - i,
                {
                    if !(fields_a[i].name == fields_b[i].name) || fields_a[i].offset
                        != fields_b[i].offset || !fields_a[i].ctype.same_as(&fields_b[i].ctype) {
                        assert(field_models(fields_a@)[i as int] != field_models(
                            fields_b@,
                        )[i as int]);
                        return false;
                    }
                    i += 1;
                }
                assert(field_models(fields_a@) =~= field_models(fields_b@));
                true
            },
            (CType::Function(ret_a, params_a), CType::Function(ret_b, params_b)) => {
                proof {
                    lemma_aggregate_models(*self);
                    lemma_aggregate_models(*other);
                }
                if !ret_a.same_as(ret_b) || params_a.len() != params_b.len() {
                    assert(type_models(params_a@).len() == params_a@.len());
                    assert(type_models(params_b@).len() == params_b@.len());
                    return false;
                }
                let mut i: usize = 0;
                while i < params_a.len()
                    invariant
                        i <= params_a.len(),
                        params_a.len() == params_b.len(),
                        forall|j: int| 0 <= j < i ==> params_a@[j]@ == params_b@[j]@,
                        self matches CType::Function(_, ps) && ps == params_a,
                        self@ matches TypeModel::Function(_, ms) && ms == type_models(params_a@),
                        other@ matches TypeModel::Function(_, ms) && ms == type_models(params_b@),
                    decreases params_a.len() - i,
                {
                    if !params_a[i].same_as(&params_b[i]) {
                        assert(type_models(params_a@)[i as int] != type_models(
                            params_b@,
                        )[i as int]);
                        return false;
                    }
                    i += 1;
                }
                assert(type_models(params_a@) =~= type_models(params_b@));
                true
            },
            _ => {
                match (self.as_scalar(), other.as_scalar()) {
                    (Some(a), Some(b)) => a == b,
                    _ => false,
                }
            },
        }
    }
}


/// Where the next field would start once the first `n` fields are laid out
/// one after the other, each at the first place at or after the end of the
/// one before that meets its alignment.
pub open spec fn layout_cursor(fields: Seq<FieldModel>, n: nat) -> nat
    decreases n,
{
    if n == 0 || n > fields.len() {
        0
    } else {
        round_up(layout_cursor(fields, (n - 1) as nat), fields[n - 1].ctype.alignment())
            + fields[n - 1].ctype.size()
    }
}

/// The offset that the layout gives to field `i`.
pub open spec fn layout_offset(fields: Seq<FieldModel>, i: nat) -> nat {
    round_up(layout_cursor(fields, i), fields[i as int].ctype.alignment())
}

/// The fields with the offsets that the layout gives them.
pub open spec fn laid_out(fields: Seq<FieldModel>) -> Seq<FieldModel> {
    Seq::new(
        fields.len(),
        |i: int|
            FieldModel {
                name: fields[i].name,
                ctype: fields[i].ctype,
                offset: layout_offset(fields, i as nat),
            },
    )
}

/// Whether the fields can be laid out: each is representable and the last
/// one ends within a `usize`.
pub open spec fn layout_representable(fields: Seq<FieldModel>) -> bool {
    fields_representable(fields, fields.len()) && layout_cursor(fields, fields.len())
        <= usize::MAX
}

/// The cursor never moves back.
pub proof fn lemma_layout_cursor_grows(fields: Seq<FieldModel>, i: nat, n: nat)
    requires
        i <= n <= fields.len(),
    ensures
        layout_cursor(fields, i) <= layout_cursor(fields, n),
    decreases n,
{
    if n > i {
        lemma_layout_cursor_grows(fields, i, (n - 1) as nat);
        lemma_alignment(fields[n - 1].ctype);
        lemma_round_up(layout_cursor(fields, (n - 1) as nat), fields[n - 1].ctype.alignment());
    }
}

/// Gives every field its offset, in declaration order: the first place at or
/// after the end of the field before it that is a multiple of its own
/// alignment.  Returns `false`, and changes nothing, where the layout does
/// not fit in a `usize`.
pub fn calculate_field_offsets(fields: &mut Vec<CField>) -> (ok: bool)
    ensures
        ok == layout_representable(field_models(old(fields)@)),
        ok ==> field_models(final(fields)@) == laid_out(field_models(old(fields)@)),
        !ok ==> field_models(final(fields)@) == field_models(old(fields)@),
{
    let ghost models = field_models(fields@);
    let mut offsets: Vec<usize> = Vec::new();
    let mut cursor: usize = 0;
    let mut i: usize = 0;
    while i < fields.len()
        invariant
            i <= fields.len(),
            fields == old(fields),
            models == field_models(fields@),
            offsets@.len() == i,
            fields_representable(models, i as nat),
            cursor == layout_cursor(models, i as nat),
            forall|j: int| 0 <= j < i ==> offsets@[j] == layout_offset(models, j as nat),
        decreases fields.len() - i,
    {
        let align = fields[i].ctype.alignment();
        let size = match fields[i].ctype.checked_size() {
            Some(n) => n,
            None => {
                proof {
                    lemma_fields_not_representable(models, i as nat, fields.len() as nat);
                }
                return false;
            },
        };
        proof {
            lemma_round_up(cursor as nat, align as nat);
            lemma_layout_cursor_grows(models, (i + 1) as nat, fields.len() as nat);
        }
        let rest = cursor % align;
        let start = if rest == 0 {
            Some(cursor)
        } else {
            cursor.checked_add(align - rest)
        };
        let end = match start {
            Some(s) => s.checked_add(size),
            None => None,
        };
        match (start, end) {
            (Some(s), Some(e)) => {
                offsets.push(s);
                cursor = e;
            },
            _ => {
                return false;
            },
        }
        i += 1;
    }
    let mut k: usize = 0;
    while k < fields.len()
        invariant
            k <= fields.len(),
            fields@.len() == old(fields)@.len(),
            offsets@.len() == fields@.len(),
            models == field_models(old(fields)@),
            layout_representable(models),
            forall|j: int|
                0 <= j < offsets@.len() ==> offsets@[j] == layout_offset(models, j as nat),
            forall|j: int| 0 <= j < k ==> (#[trigger] fields@[j])@ == laid_out(models)[j],
            forall|j: int| k <= j < fields@.len() ==> (#[trigger] fields@[j])@ == models[j],
        decreases fields.len() - k,
    {
        fields[k].offset = offsets[k];
        k += 1;
    }
    assert(field_models(fields@) =~= laid_out(models));
    true
}


/// Where the first `n` fields are representable, each of them is.
pub proof fn lemma_field_representable(fields: Seq<FieldModel>, n: nat, k: int)
    requires
        0 <= k < n <= fields.len(),
        fields_representable(fields, n),
    ensures
        fields[k].ctype.representable(),
    decreases n,
{
    if k < n - 1 {
        lemma_field_representable(fields, (n - 1) as nat, k);
    }
}

/// No field reaches further than the furthest end.
pub proof fn lemma_field_end(fields: Seq<FieldModel>, n: nat, k: int)
    requires
        0 <= k < n <= fields.len(),
    ensures
        fields[k].offset + fields[k].ctype.size() <= max_field_end(fields, n),
    decreases n,
{
    if k < n - 1 {
        lemma_field_end(fields, (n - 1) as nat, k);
    }
}

/// Every scalar but `void` has a size above zero, and every scalar has an
/// alignment above zero that is no greater than eight.  What is read and
/// written of a scalar is one, two, four or eight bytes within its size.
pub proof fn lemma_scalar_layout(k: Scalar)
    ensures
        k != Scalar::Void ==> 0 < k.spec_size() <= 8,
        k == Scalar::Void ==> k.spec_size() == 0 && k.spec_width() == 0,
        0 < k.spec_alignment() <= 8,
        k.spec_width() <= k.spec_size(),
        k != Scalar::Void ==> k.spec_width() == 1 || k.spec_width() == 2 || k.spec_width() == 4
            || k.spec_width() == 8,
{
    broadcast use vstd::layout::layout_of_primitives;

    lemma_word_layout();
}

/// An array is as large as its elements together and aligned as they are;
/// an array of no elements has no size.
pub proof fn lemma_array_layout(inner: TypeModel, count: nat)
    ensures
        TypeModel::Array(Box::new(inner), count).size() == count * inner.size(),
        TypeModel::Array(Box::new(inner), 0).size() == 0,
        TypeModel::Array(Box::new(inner), count).alignment() == inner.alignment(),
{
    assert(inner.size() * count == count * inner.size()) by (nonlinear_arith);
    assert(inner.size() * 0 == 0);
}

/// A pointer and a function are as large and as aligned as a word, whatever
/// they point to; an array of unknown length has no size and the alignment
/// of its elements; another name for a type has the layout of the type.
pub proof fn lemma_derived_layout(inner: TypeModel, params: Seq<TypeModel>, name: Seq<char>)
    ensures
        TypeModel::Ptr(Box::new(inner)).size() == word_size(),
        TypeModel::Ptr(Box::new(inner)).alignment() == word_align(),
        TypeModel::Function(Box::new(inner), params).size() == word_size(),
        TypeModel::Function(Box::new(inner), params).alignment() == word_align(),
        TypeModel::VLA(Box::new(inner)).size() == 0,
        TypeModel::VLA(Box::new(inner)).alignment() == inner.alignment(),
        TypeModel::Typedef(name, Box::new(inner)).size() == inner.size(),
        TypeModel::Typedef(name, Box::new(inner)).alignment() == inner.alignment(),
{
}

/// Where there are fields, the greatest of their alignments is the
/// alignment of one of them, and none has a greater one.
pub proof fn lemma_max_field_alignment(fields: Seq<FieldModel>, n: nat)
    requires
        n <= fields.len(),
    ensures
        forall|i: int| 0 <= i < n ==> (#[trigger] fields[i]).ctype.alignment()
            <= max_field_alignment(fields, n),
        n > 0 ==> exists|i: int| 0 <= i < n && (#[trigger] fields[i]).ctype.alignment()
            == max_field_alignment(fields, n),
        n == 0 ==> max_field_alignment(fields, n) == 1,
    decreases n,
{
    if n > 0 {
        lemma_max_field_alignment(fields, (n - 1) as nat);
        lemma_field_alignment(fields, (n - 1) as nat);
        lemma_alignment(fields[n - 1].ctype);
        if n == 1 {
            assert(fields[0].ctype.alignment() == max_field_alignment(fields, n));
        } else {
            let i = choose|i: int| 0 <= i < n - 1 && (#[trigger] fields[i]).ctype.alignment()
                == max_field_alignment(fields, (n - 1) as nat);
            if fields[n - 1].ctype.alignment() > max_field_alignment(fields, (n - 1) as nat) {
                assert(fields[n - 1].ctype.alignment() == max_field_alignment(fields, n));
            } else {
                assert(fields[i].ctype.alignment() == max_field_alignment(fields, n));
            }
        }
    }
}

/// Where there are fields, the greatest of their sizes is the size of one
/// of them, and none has a greater one.
pub proof fn lemma_max_field_size(fields: Seq<FieldModel>, n: nat)
    requires
        n <= fields.len(),
    ensures
        forall|i: int| 0 <= i < n ==> (#[trigger] fields[i]).ctype.size() <= max_field_size(
            fields,
            n,
        ),
        n > 0 ==> exists|i: int| 0 <= i < n && (#[trigger] fields[i]).ctype.size()
            == max_field_size(fields, n),
        n == 0 ==> max_field_size(fields, n) == 0,
    decreases n,
{
    if n > 0 {
        lemma_max_field_size(fields, (n - 1) as nat);
        if n == 1 {
            assert(fields[0].ctype.size() == max_field_size(fields, n));
        } else {
            let i = choose|i: int| 0 <= i < n - 1 && (#[trigger] fields[i]).ctype.size()
                == max_field_size(fields, (n - 1) as nat);
            if fields[n - 1].ctype.size() > max_field_size(fields, (n - 1) as nat) {
                assert(fields[n - 1].ctype.size() == max_field_size(fields, n));
            } else {
                assert(fields[i].ctype.size() == max_field_size(fields, n));
            }
        }
    }
}

/// A union is as large as its largest field and as aligned as its most
/// aligned one; a union without fields has no size and the alignment 1.
pub proof fn lemma_union_layout(name: Seq<char>, fields: Seq<FieldModel>)
    ensures
        forall|i: int| 0 <= i < fields.len() ==> (#[trigger] fields[i]).ctype.size()
            <= TypeModel::Union(name, fields).size(),
        fields.len() > 0 ==> exists|i: int|
            0 <= i < fields.len() && (#[trigger] fields[i]).ctype.size() == TypeModel::Union(
                name,
                fields,
            ).size(),
        forall|i: int| 0 <= i < fields.len() ==> (#[trigger] fields[i]).ctype.alignment()
            <= TypeModel::Union(name, fields).alignment(),
        fields.len() > 0 ==> exists|i: int|
            0 <= i < fields.len() && (#[trigger] fields[i]).ctype.alignment() == TypeModel::Union(
                name,
                fields,
            ).alignment(),
        fields.len() == 0 ==> TypeModel::Union(name, fields).size() == 0 && TypeModel::Union(
            name,
            fields,
        ).alignment() == 1,
{
    lemma_max_field_size(fields, fields.len());
    lemma_max_field_alignment(fields, fields.len());
}

/// The size of a struct is the smallest multiple of its alignment that
/// reaches the furthest end of a field; its alignment is that of its most
/// aligned field.  A struct without fields has no size and the alignment 1.
pub proof fn lemma_struct_layout(name: Seq<char>, fields: Seq<FieldModel>)
    ensures
        ({
            let t = TypeModel::Struct(name, fields);
            &&& t.size() % t.alignment() == 0
            &&& max_field_end(fields, fields.len()) <= t.size() < max_field_end(
                fields,
                fields.len(),
            ) + t.alignment()
            &&& forall|i: int| 0 <= i < fields.len() ==> (#[trigger] fields[i]).offset
                + fields[i].ctype.size() <= t.size()
            &&& forall|i: int| 0 <= i < fields.len() ==> (#[trigger] fields[i]).ctype.alignment()
                <= t.alignment()
            &&& fields.len() == 0 ==> t.size() == 0 && t.alignment() == 1
        }),
{
    let t = TypeModel::Struct(name, fields);
    lemma_alignment(t);
    lemma_round_up(max_field_end(fields, fields.len()), t.alignment());
    lemma_max_field_alignment(fields, fields.len());
    assert forall|i: int| 0 <= i < fields.len() implies (#[trigger] fields[i]).offset
        + fields[i].ctype.size() <= t.size() by {
        lemma_field_end(fields, fields.len(), i);
    }
}

/// The layout puts the first field at the start, each field at a multiple
/// of its alignment, and each field after the end of the one before it,
/// with less than its alignment between the two.
pub proof fn lemma_layout_offsets(fields: Seq<FieldModel>, i: nat)
    requires
        i < fields.len(),
    ensures
        layout_offset(fields, i) % fields[i as int].ctype.alignment() == 0,
        i == 0 ==> layout_offset(fields, i) == 0,
        i > 0 ==> layout_offset(fields, (i - 1) as nat) + fields[i - 1].ctype.size()
            <= layout_offset(fields, i) < layout_offset(fields, (i - 1) as nat) + fields[i
            - 1].ctype.size() + fields[i as int].ctype.alignment(),
        laid_out(fields)[i as int].offset == layout_offset(fields, i),
        laid_out(fields)[i as int].ctype == fields[i as int].ctype,
        laid_out(fields)[i as int].name == fields[i as int].name,
{
    lemma_alignment(fields[i as int].ctype);
    lemma_round_up(layout_cursor(fields, i), fields[i as int].ctype.alignment());
    if i == 0 {
        assert(0nat % fields[0].ctype.alignment() == 0);
    }
}

/// Once the fields are laid out, the furthest end of a field is the end of
/// the last one: the struct reaches from its start to there, rounded up to
/// its alignment.
pub proof fn lemma_layout_end(fields: Seq<FieldModel>, n: nat)
    requires
        n <= fields.len(),
    ensures
        max_field_end(laid_out(fields), n) == layout_cursor(fields, n),
        max_field_alignment(laid_out(fields), n) == max_field_alignment(fields, n),
    decreases n,
{
    if n > 0 {
        lemma_layout_end(fields, (n - 1) as nat);
        lemma_layout_cursor_grows(fields, (n - 1) as nat, n);
        lemma_alignment(fields[n - 1].ctype);
        lemma_round_up(layout_cursor(fields, (n - 1) as nat), fields[n - 1].ctype.alignment());
    }
}


/// Fields that are laid out do not overlap: each starts at or after the
/// end of every field before it.
pub proof fn lemma_layout_disjoint(fields: Seq<FieldModel>, i: nat, j: nat)
    requires
        i < j < fields.len(),
    ensures
        layout_offset(fields, i) + fields[i as int].ctype.size() <= layout_offset(fields, j),
{
    lemma_layout_cursor_grows(fields, i + 1, j);
    lemma_alignment(fields[j as int].ctype);
    lemma_round_up(layout_cursor(fields, j), fields[j as int].ctype.alignment());
}

} // verus!
