//! Values of C types: an address in the engine's memory, with the type of
//! what lies there.

use crate::ctype::CField;
use crate::ctype::CType;
use crate::ctype::field_models;
use crate::ctype::FieldModel;
use crate::ctype::Scalar;
use crate::ctype::TypeModel;
use crate::error::FfiError;
use crate::marshal::name_bytes;
use crate::marshal::read_ctype_value;
use crate::marshal::read_is;
use crate::marshal::read_model;
use crate::marshal::write_value_to_ptr;
use crate::marshal::written;
use crate::memory::align_up;
use crate::memory::Arena;
use crate::memory::Block;
use crate::memory::Memory;
use crate::memory::SMALL_BUFFER_ALIGN;
use crate::memory::SMALL_BUFFER_SIZE;
use crate::memory::valid_layout;
use crate::memory::zeros;
use crate::value::DynamicValue;
use crate::value::HostValue;
use crate::value::same_bytes;
use vstd::prelude::*;
use vstd::string::StrSliceExecFns;

verus! {

/// A value of a C type.
///
/// The value either owns its storage or is a view of storage that it does
/// not own.  Storage that it owns is a small buffer, for values of at most
/// [`SMALL_BUFFER_SIZE`] bytes, or a heap allocation, which
/// [`CData::release`] gives back exactly once.
#[derive(Debug, PartialEq)]
pub struct CData {
    /// The type of the value.
    pub ctype: CType,
    /// The address of the value's first byte; zero for null.
    pub ptr: usize,
    /// Whether the value owns its storage.
    pub owned: bool,
    /// The number of bytes that the value is known to hold.
    pub size: usize,
    /// Whether the storage that the value owns is a small buffer.
    pub small_buffer: bool,
}

/// Where storage of `size` bytes for a type of alignment `align` is placed
/// in an arena, with the arena after that, if the arena can provide it.
///
/// No bytes need no storage: the address is null.  Up to
/// [`SMALL_BUFFER_SIZE`] bytes get a small buffer of that many zero bytes
/// at the first place after the arena's end that meets
/// [`SMALL_BUFFER_ALIGN`].  More bytes get as many zero bytes as asked for,
/// at the first place after the arena's end that meets `align`, where the
/// layout is valid.  Either storage gets an extent.  In no case may the
/// arena reach beyond `isize::MAX`.
pub open spec fn allotted(arena: Arena, align: nat, size: nat) -> Option<(int, Arena)> {
    let end = crate::memory::arena_end(arena.bytes);
    if size == 0 {
        Some((0, arena))
    } else if size <= SMALL_BUFFER_SIZE {
        let ptr = align_up(end as nat, SMALL_BUFFER_ALIGN as nat);
        if ptr + SMALL_BUFFER_SIZE <= isize::MAX {
            Some(
                (
                    ptr as int,
                    Arena {
                        bytes: arena.bytes + zeros((ptr + SMALL_BUFFER_SIZE - end) as nat),
                        extents: arena.extents.push(
                            Block {
                                address: ptr as usize,
                                size: SMALL_BUFFER_SIZE,
                                align: SMALL_BUFFER_ALIGN,
                            },
                        ),
                    },
                ),
            )
        } else {
            None
        }
    } else {
        let ptr = align_up(end as nat, align);
        if valid_layout(size, align) && ptr + size <= isize::MAX {
            Some(
                (
                    ptr as int,
                    Arena {
                        bytes: arena.bytes + zeros((ptr + size - end) as nat),
                        extents: arena.extents.push(
                            Block { address: ptr as usize, size: size as usize, align: align as usize },
                        ),
                    },
                ),
            )
        } else {
            None
        }
    }
}

/// Storage that was allotted lies in the arena, after what was there, and
/// holds zero bytes; what was there is as it was.
pub proof fn lemma_allotted(arena: Arena, align: nat, size: nat)
    requires
        allotted(arena, align, size) is Some,
        size > 0,
        align > 0,
    ensures
        ({
            let (ptr, after) = allotted(arena, align, size)->0;
            &&& ptr >= crate::memory::arena_end(arena.bytes)
            &&& ptr != 0
            &&& crate::memory::readable(after.bytes, ptr, size as int)
            &&& crate::memory::load(after.bytes, ptr, size as int) == zeros(size)
            &&& after.bytes.subrange(0, arena.bytes.len() as int) == arena.bytes
            &&& size > SMALL_BUFFER_SIZE ==> ptr % (align as int) == 0
            &&& size <= SMALL_BUFFER_SIZE ==> ptr % (SMALL_BUFFER_ALIGN as int) == 0
        }),
{
    let end = crate::memory::arena_end(arena.bytes);
    let (ptr, after) = allotted(arena, align, size)->0;
    if size <= SMALL_BUFFER_SIZE {
        crate::ctype::lemma_round_up(end as nat, SMALL_BUFFER_ALIGN as nat);
    } else {
        crate::ctype::lemma_round_up(end as nat, align);
    }
    assert(crate::memory::load(after.bytes, ptr, size as int) =~= zeros(size));
    assert(after.bytes.subrange(0, arena.bytes.len() as int) =~= arena.bytes);
}

impl CData {
    /// Whether releasing the value gives a heap allocation back: the value
    /// owns storage that is not a small buffer.
    pub open spec fn holds_heap(&self) -> bool {
        self.owned && self.ptr != 0 && self.size > 0 && !self.small_buffer
    }

    /// A value of `size` zero bytes that owns its storage.
    ///
    /// Up to [`SMALL_BUFFER_SIZE`] bytes the storage is a small buffer;
    /// above, it is a heap allocation with the alignment of the type, which
    /// is recorded as live.  A value of no bytes is null and owns nothing.
    /// Fails where the memory cannot provide the storage, and leaves the
    /// memory unchanged then.
    pub fn new(mem: &mut Memory, ctype: CType, size: usize) -> (r: Result<CData, FfiError>)
        ensures
            match allotted(old(mem).arena(), ctype@.alignment(), size as nat) {
                Some((ptr, arena)) => {
                    &&& r matches Ok(cd)
                    &&& cd.ctype == ctype
                    &&& cd.size == size
                    &&& cd.ptr == ptr
                    &&& cd.owned == (size > 0)
                    &&& cd.small_buffer == (0 < size <= SMALL_BUFFER_SIZE)
                    &&& final(mem).arena() == arena
                    &&& final(mem).live() == if size > SMALL_BUFFER_SIZE {
                        old(mem).live().push(
                            Block {
                                address: cd.ptr,
                                size,
                                align: ctype@.alignment() as usize,
                            },
                        )
                    } else {
                        old(mem).live()
                    }
                },
                None => r == Err::<CData, FfiError>(FfiError::AllocationFailure)
                    && final(mem).arena() == old(mem).arena() && final(mem).live() == old(
                    mem,
                ).live(),
            },
            old(mem).well_formed() ==> final(mem).well_formed(),
    {
        if size == 0 {
            Ok(CData { ctype, ptr: 0, owned: false, size: 0, small_buffer: false })
        } else if size <= SMALL_BUFFER_SIZE {
            match mem.reserve_small() {
                Ok(ptr) => Ok(CData { ctype, ptr, owned: true, size, small_buffer: true }),
                Err(e) => Err(e),
            }
        } else {
            let align = ctype.alignment();
            match mem.allocate(size, align) {
                Ok(ptr) => Ok(CData { ctype, ptr, owned: true, size, small_buffer: false }),
                Err(e) => Err(e),
            }
        }
    }

    /// The null pointer: a pointer to `void` at the address zero, which owns
    /// nothing.
    pub fn new_null_ptr() -> (cd: CData)
        ensures
            cd.ctype@ == TypeModel::Ptr(Box::new(TypeModel::Scalar(Scalar::Void))),
            cd.ptr == 0,
            !cd.owned,
            cd.size == crate::ctype::word_size(),
            !cd.small_buffer,
    {
        proof {
            reveal_with_fuel(crate::ctype::type_model, 3);
        }
        CData {
            ctype: CType::Ptr(Box::new(CType::Void)),
            ptr: 0,
            owned: false,
            size: crate::ctype::pointer_size(),
            small_buffer: false,
        }
    }

    /// A value of the given type at the given address, as large as the type.
    pub fn from_ptr(ctype: CType, ptr: usize, owned: bool) -> (cd: CData)
        requires
            ctype@.representable(),
        ensures
            cd.ctype == ctype,
            cd.ptr == ptr,
            cd.owned == owned,
            cd.size == ctype@.size(),
            !cd.small_buffer,
    {
        let size = ctype.size();
        CData { ctype, ptr, owned, size, small_buffer: false }
    }

    /// The address of the value.
    pub fn as_ptr(&self) -> (p: usize)
        ensures
            p == self.ptr,
    {
        self.ptr
    }

    /// Whether the value is at the address zero.
    pub fn is_null(&self) -> (b: bool)
        ensures
            b == (self.ptr == 0),
    {
        self.ptr == 0
    }

    /// Gives the value's storage up.
    ///
    /// Where the value owns a heap allocation, its record leaves the live
    /// allocations of the memory, by the size and the alignment that it was
    /// made with.  A small buffer and a view give nothing back.  Afterwards
    /// the value owns nothing, so that a second release changes nothing,
    /// and in a memory that is well formed the allocation is live no more.
    /// The bytes of the memory stay as they are.
    pub fn release(&mut self, mem: &mut Memory) -> (released: bool)
        ensures
            final(mem).arena() == old(mem).arena(),
            old(mem).well_formed() ==> final(mem).well_formed(),
            old(mem).well_formed() && released ==> !final(mem).live().contains(
                Block {
                    address: old(self).ptr,
                    size: old(self).size,
                    align: old(self).ctype@.alignment() as usize,
                },
            ),
            !final(self).owned,
            final(self).ctype == old(self).ctype,
            final(self).ptr == old(self).ptr,
            final(self).size == old(self).size,
            final(self).small_buffer == old(self).small_buffer,
            released == (old(self).holds_heap() && old(mem).live().contains(
                Block {
                    address: old(self).ptr,
                    size: old(self).size,
                    align: old(self).ctype@.alignment() as usize,
                },
            )),
            !released ==> final(mem).live() == old(mem).live(),
            released ==> final(mem).live() == old(mem).live().remove(
                crate::memory::last_index(
                    old(mem).live(),
                    Block {
                        address: old(self).ptr,
                        size: old(self).size,
                        align: old(self).ctype@.alignment() as usize,
                    },
                ),
            ),
    {
        let heap = self.owned && self.ptr != 0 && self.size > 0 && !self.small_buffer;
        self.owned = false;
        if heap {
            let align = self.ctype.alignment();
            mem.release(self.ptr, self.size, align)
        } else {
            false
        }
    }
}


/// The type behind the names: the type itself, or, where it is another name
/// for a type, what that type is behind its names.
pub open spec fn underlying(t: TypeModel) -> TypeModel
    decreases t,
{
    match t {
        TypeModel::Typedef(_, inner) => underlying(*inner),
        _ => t,
    }
}

/// The first of the first `n` fields whose name, in UTF-8, is `key`.
pub open spec fn field_index(fields: Seq<FieldModel>, key: Seq<u8>, n: nat) -> Option<int>
    decreases n,
{
    if n == 0 || n > fields.len() {
        None
    } else {
        match field_index(fields, key, (n - 1) as nat) {
            Some(i) => Some(i),
            None => if name_bytes(fields[n - 1].name) == key {
                Some(n - 1)
            } else {
                None
            },
        }
    }
}

/// The part of a value that a key names: its address and its type.
///
/// A text names a field of a struct or a union, by the field's name in
/// UTF-8.  An integer names an element of an array, or of what a pointer
/// points to: the element that many elements after the value's address,
/// or, where it is negative, before it.  No other key names a part.
pub open spec fn part(t: TypeModel, ptr: int, key: HostValue) -> Result<
    (int, TypeModel),
    FfiError,
> {
    match key {
        HostValue::Text(name) => match underlying(t) {
            TypeModel::Struct(_, fields) | TypeModel::Union(_, fields) => match field_index(
                fields,
                name@,
                fields.len(),
            ) {
                Some(i) => if ptr + fields[i].offset > usize::MAX {
                    Err(FfiError::InvalidAddress)
                } else {
                    Ok((ptr + fields[i].offset, fields[i].ctype))
                },
                None => Err(FfiError::FieldNotFound),
            },
            _ => Err(FfiError::NotAnAggregate),
        },
        HostValue::Integer(n) => match underlying(t) {
            TypeModel::Array(elem, _) | TypeModel::Ptr(elem) => if !elem.representable() {
                Err(FfiError::AllocationFailure)
            } else if !(0 <= ptr + n * elem.size() <= usize::MAX) {
                Err(FfiError::InvalidAddress)
            } else {
                Ok((ptr + n * elem.size(), *elem))
            },
            _ => Err(FfiError::NotAnIndexable),
        },
        _ => Err(FfiError::TypeMismatch),
    }
}

/// `t` behind its names.
pub fn underlying_type(t: &CType) -> (r: &CType)
    ensures
        r@ == underlying(t@),
        !(r is Typedef),
    decreases t,
{
    match t {
        CType::Typedef(_, inner) => underlying_type(inner),
        _ => t,
    }
}

/// The first of the fields whose name, in UTF-8, is `key`.
pub fn find_field(fields: &Vec<CField>, key: &Vec<u8>) -> (r: Option<usize>)
    ensures
        match r {
            Some(i) => i < fields@.len() && field_index(
                field_models(fields@),
                key@,
                fields@.len(),
            ) == Some(i as int),
            None => field_index(field_models(fields@), key@, fields@.len()) is None,
        },
{
    let mut i: usize = 0;
    while i < fields.len()
        invariant
            i <= fields@.len(),
            field_index(field_models(fields@), key@, i as nat) is None,
        decreases fields.len() - i,
    {
        let name = fields[i].name.as_str().as_bytes_vec();
        if same_bytes(&name, key) {
            proof {
                lemma_field_index_found(field_models(fields@), key@, i as int, fields@.len());
            }
            return Some(i);
        }
        i += 1;
    }
    None
}

/// A field that is the first of its name among the fields before the next
/// one is the first of its name among all.
pub proof fn lemma_field_index_found(fields: Seq<FieldModel>, key: Seq<u8>, i: int, n: nat)
    requires
        0 <= i < n <= fields.len(),
        field_index(fields, key, i as nat) is None,
        name_bytes(fields[i].name) == key,
    ensures
        field_index(fields, key, n) == Some(i),
    decreases n,
{
    if n > i + 1 {
        lemma_field_index_found(fields, key, i, (n - 1) as nat);
    }
}

impl CData {
    /// The part of the value that the key names: its address and its type.
    pub fn part<'a>(&'a self, key: &HostValue) -> (r: Result<(usize, &'a CType), FfiError>)
        ensures
            match (r, part(self.ctype@, self.ptr as int, *key)) {
                (Ok((addr, t)), Ok((a, m))) => addr == a && t@ == m,
                (Err(e), Err(f)) => e == f,
                _ => false,
            },
    {
        let t = underlying_type(&self.ctype);
        match key {
            HostValue::Text(name) => match t {
                CType::Struct(_, fields) | CType::Union(_, fields) => {
                    proof {
                        crate::ctype::lemma_aggregate_models(*t);
                    }
                    match find_field(fields, name) {
                        Some(i) => {
                            if fields[i].offset > usize::MAX - self.ptr {
                                Err(FfiError::InvalidAddress)
                            } else {
                                Ok((self.ptr + fields[i].offset, &fields[i].ctype))
                            }
                        },
                        None => Err(FfiError::FieldNotFound),
                    }
                },
                _ => {
                    proof {
                        reveal_with_fuel(crate::ctype::type_model, 1);
                    }
                    Err(FfiError::NotAnAggregate)
                },
            },
            HostValue::Integer(n) => match t {
                CType::Array(elem, _) | CType::Ptr(elem) => {
                    proof {
                        reveal_with_fuel(crate::ctype::type_model, 2);
                    }
                    let size = match elem.checked_size() {
                        Some(size) => size,
                        None => {
                            return Err(FfiError::AllocationFailure);
                        },
                    };
                    assert(-0x8000_0000_0000_0000 * 0xffff_ffff_ffff_ffff <= *n * size
                        <= 0x7fff_ffff_ffff_ffff * 0xffff_ffff_ffff_ffff) by (nonlinear_arith)
                        requires
                            -0x8000_0000_0000_0000 <= *n <= 0x7fff_ffff_ffff_ffff,
                            0 <= size <= 0xffff_ffff_ffff_ffff,
                    ;
                    let at: i128 = (self.ptr as i128) + (*n as i128) * (size as i128);
                    if at < 0 || at > usize::MAX as i128 {
                        Err(FfiError::InvalidAddress)
                    } else {
                        Ok((at as usize, &**elem))
                    }
                },
                _ => {
                    proof {
                        reveal_with_fuel(crate::ctype::type_model, 1);
                    }
                    Err(FfiError::NotAnIndexable)
                },
            },
            _ => Err(FfiError::TypeMismatch),
        }
    }

    /// Reads the part of the value that the key names.
    ///
    /// Fails as [`part`] says where the key names no part, and as
    /// [`read_model`] says where the part cannot be read.
    pub fn index(&self, mem: &Memory, key: &HostValue) -> (r: Result<DynamicValue, FfiError>)
        ensures
            match part(self.ctype@, self.ptr as int, *key) {
                Ok((addr, t)) => read_is(r, read_model(mem@, addr, t)),
                Err(e) => r matches Err(f) && f == e,
            },
    {
        match self.part(key) {
            Ok((addr, t)) => read_ctype_value(mem, addr, t),
            Err(e) => Err(e),
        }
    }

    /// Writes a host value into the part of the value that the key names.
    ///
    /// Fails as [`part`] says where the key names no part, with
    /// `AllocationFailure` where the size of the part fits in no `usize`,
    /// and as [`written`] says where the part cannot take the host value.
    /// Only [`written`] changes the memory.
    pub fn new_index(&self, mem: &mut Memory, key: &HostValue, value: &HostValue) -> (r: Result<
        (),
        FfiError,
    >)
        ensures
            final(mem).live() == old(mem).live(),
            old(mem).well_formed() ==> final(mem).well_formed(),
            match part(self.ctype@, self.ptr as int, *key) {
                Ok((addr, t)) => if t.representable() {
                    (final(mem).arena(), r) == written(old(mem).arena(), addr, t, *value)
                } else {
                    r == Err::<(), FfiError>(FfiError::AllocationFailure) && final(mem).arena()
                        == old(mem).arena()
                },
                Err(e) => r == Err::<(), FfiError>(e) && final(mem).arena() == old(mem).arena(),
            },
    {
        match self.part(key) {
            Ok((addr, t)) => {
                if t.checked_size().is_none() {
                    return Err(FfiError::AllocationFailure);
                }
                write_value_to_ptr(mem, addr, t, value)
            },
            Err(e) => Err(e),
        }
    }

    /// The number of elements of an array.
    pub fn len(&self) -> (r: Result<usize, FfiError>)
        ensures
            match underlying(self.ctype@) {
                TypeModel::Array(_, count) => r == Ok::<usize, FfiError>(count as usize),
                _ => r == Err::<usize, FfiError>(FfiError::NotAnIndexable),
            },
    {
        match underlying_type(&self.ctype) {
            CType::Array(_, count) => {
                proof {
                    reveal_with_fuel(crate::ctype::type_model, 1);
                }
                Ok(*count)
            },
            _ => {
                proof {
                    reveal_with_fuel(crate::ctype::type_model, 1);
                }
                Err(FfiError::NotAnIndexable)
            },
        }
    }
}

} // verus!
