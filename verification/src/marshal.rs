//! The marshalling engine: host values into bytes, and bytes into values
//! for the host, as the type of the place says.

use crate::cdata::CData;
use crate::codec::decode_integer;
use crate::codec::decode_unsigned;
use crate::codec::encode_integer;
use crate::codec::encode_unsigned;
use crate::codec::host_integer;
use crate::codec::le_bytes;
use crate::codec::le_value;
use crate::ctype::CType;
use crate::ctype::field_models;
use crate::ctype::FieldModel;
use crate::ctype::pointer_size;
use crate::ctype::Scalar;
use crate::ctype::ScalarClass;
use crate::ctype::TypeModel;
use crate::ctype::word_size;
use crate::error::FfiError;
use crate::cdata::underlying;
use crate::cdata::underlying_type;
use crate::memory::appended;
use crate::memory::arena_end;
use crate::memory::Arena;
use crate::memory::put;
use crate::memory::fault;
use crate::memory::load;
use crate::memory::Memory;
use crate::memory::store;
use crate::value::DynamicValue;
use crate::value::entry_index;
use crate::value::find_entry;
use crate::value::HostEntry;
use crate::value::HostValue;
use crate::value::ValueModel;
use vstd::prelude::*;
use vstd::string::StrSliceExecFns;

verus! {

/// The bytes of a name: its characters in UTF-8.
pub open spec fn name_bytes(name: Seq<char>) -> Seq<u8> {
    vstd::utf8::encode_utf8(name)
}

/// The byte that stands for a truth value.
pub open spec fn bool_byte(b: bool) -> u8 {
    if b {
        1
    } else {
        0
    }
}

/// Whether the type is `char` or `unsigned char`, under whatever names.
pub open spec fn is_char_model(t: TypeModel) -> bool {
    underlying(t) == TypeModel::Scalar(Scalar::Char) || underlying(t) == TypeModel::Scalar(
        Scalar::UChar,
    )
}

/// The bytes that a host value becomes in a scalar of the given kind.
///
/// An integer takes an integer, or a number by its whole part, which is
/// the number truncated toward zero; either is narrowed to the width by
/// dropping the high bytes.  A single and a double take an integer or a
/// number, as the nearest single or double.  A `bool` takes a truth value,
/// or an integer, which is true where it is not zero.  `void` takes
/// nothing.
pub open spec fn scalar_bytes(k: Scalar, v: HostValue) -> Result<Seq<u8>, FfiError> {
    match k.spec_class() {
        ScalarClass::Integer { width, .. } => match v {
            HostValue::Integer(n) => Ok(le_bytes(n as int, width as nat)),
            HostValue::Number(bits) => Ok(
                le_bytes(crate::ieee::double_whole(bits), width as nat),
            ),
            _ => Err(FfiError::TypeMismatch),
        },
        ScalarClass::Single => match v {
            HostValue::Integer(n) => Ok(
                le_bytes(crate::ieee::single_of_integer(n as int) as int, 4),
            ),
            HostValue::Number(bits) => Ok(le_bytes(crate::ieee::single_of_double(bits) as int, 4)),
            _ => Err(FfiError::TypeMismatch),
        },
        ScalarClass::Double => match v {
            HostValue::Integer(n) => Ok(
                le_bytes(crate::ieee::double_of_integer(n as int) as int, 8),
            ),
            HostValue::Number(bits) => Ok(le_bytes(bits as int, 8)),
            _ => Err(FfiError::TypeMismatch),
        },
        ScalarClass::Boolean => match v {
            HostValue::Boolean(b) => Ok(seq![bool_byte(b)]),
            HostValue::Integer(n) => Ok(seq![bool_byte(n != 0)]),
            _ => Err(FfiError::TypeMismatch),
        },
        ScalarClass::Void => Err(FfiError::TypeMismatch),
    }
}

/// The bytes of an address in a pointer.
pub open spec fn address_bytes(addr: int) -> Seq<u8> {
    le_bytes(addr, word_size())
}

/// What writing the elements from the `k`-th up to the `n`-th does, each at
/// its place in the array, and how it ends: at the first element that
/// cannot be written, or whose address no `usize` holds.
pub open spec fn written_elements(
    arena: Arena,
    ptr: int,
    elem: TypeModel,
    items: Seq<HostValue>,
    n: nat,
    k: nat,
) -> (Arena, Result<(), FfiError>)
    decreases elem, 1nat, n - k,
{
    if k >= n || k >= items.len() {
        (arena, Ok(()))
    } else if ptr + k * elem.size() > usize::MAX {
        (arena, Err(FfiError::InvalidAddress))
    } else {
        let (after, r) = written(arena, ptr + k * elem.size(), elem, items[k as int]);
        match r {
            Ok(_) => written_elements(after, ptr, elem, items, n, k + 1),
            Err(e) => (after, Err(e)),
        }
    }
}

/// What writing the fields from the `k`-th on does, each from the first
/// entry under its name, where there is one, and how it ends: at the first
/// field that cannot be written, or whose address no `usize` holds.
pub open spec fn written_fields(
    arena: Arena,
    ptr: int,
    fields: Seq<FieldModel>,
    entries: Seq<HostEntry>,
    k: nat,
) -> (Arena, Result<(), FfiError>)
    decreases fields, 1nat, fields.len() - k,
{
    if k >= fields.len() {
        (arena, Ok(()))
    } else {
        match entry_index(entries, name_bytes(fields[k as int].name)) {
            None => written_fields(arena, ptr, fields, entries, k + 1),
            Some(i) => if ptr + fields[k as int].offset > usize::MAX {
                (arena, Err(FfiError::InvalidAddress))
            } else {
                let (after, r) = written(
                    arena,
                    ptr + fields[k as int].offset,
                    fields[k as int].ctype,
                    entries[i].value,
                );
                match r {
                    Ok(_) => written_fields(after, ptr, fields, entries, k + 1),
                    Err(e) => (after, Err(e)),
                }
            },
        }
    }
}

/// What writing the first of the fields from the `k`-th on that has an
/// entry under its name does, and how it ends.  The fields after it are not
/// written.
pub open spec fn written_first(
    arena: Arena,
    ptr: int,
    fields: Seq<FieldModel>,
    entries: Seq<HostEntry>,
    k: nat,
) -> (Arena, Result<(), FfiError>)
    decreases fields, 1nat, fields.len() - k,
{
    if k >= fields.len() {
        (arena, Ok(()))
    } else {
        match entry_index(entries, name_bytes(fields[k as int].name)) {
            None => written_first(arena, ptr, fields, entries, k + 1),
            Some(i) => if ptr + fields[k as int].offset > usize::MAX {
                (arena, Err(FfiError::InvalidAddress))
            } else {
                written(
                    arena,
                    ptr + fields[k as int].offset,
                    fields[k as int].ctype,
                    entries[i].value,
                )
            },
        }
    }
}

/// The bytes of a text in an array of `count` characters: as many as fit,
/// and a zero byte after them where there is room for it.
pub open spec fn text_in_array(text: Seq<u8>, count: nat) -> Seq<u8> {
    if text.len() < count {
        text + seq![0u8]
    } else {
        text.take(count as int)
    }
}

/// What writing a host value at `ptr`, as a value of type `t`, does to the
/// memory, and how it ends.
///
/// A scalar takes the bytes that [`scalar_bytes`] gives.  A pointer takes
/// an integer as an address, the address of a handle, nothing as the null
/// address, and, where it points to characters, a text: the text is put
/// after the end of the memory with a zero byte after it, in an extent of
/// its own, and the pointer takes the address of its first byte.  A function takes an integer or a
/// handle.  An array takes a sequence, element by element, as many as the
/// sequence and the array both hold, and, where it is an array of
/// characters, a text.  A struct takes a mapping, field by field, each from
/// the first entry under its name; a union takes from a mapping the first
/// of its fields that has an entry.  A table is a sequence to an array and
/// a mapping to a struct or a union.  Another name for a type takes what the
/// type takes.  An array of unknown length takes nothing, nor does any type
/// take a value of another kind.
pub open spec fn written(arena: Arena, ptr: int, t: TypeModel, v: HostValue) -> (
    Arena,
    Result<(), FfiError>,
)
    decreases t, 0nat, 0nat,
{
    match t {
        TypeModel::Scalar(k) => match scalar_bytes(k, v) {
            Ok(data) => put(arena, ptr, data),
            Err(e) => (arena, Err(e)),
        },
        TypeModel::Ptr(inner) => match v {
            HostValue::Integer(n) => put(arena, ptr, address_bytes(n as int)),
            HostValue::Handle(addr) => put(arena, ptr, address_bytes(addr as int)),
            HostValue::Nil => put(arena, ptr, address_bytes(0)),
            HostValue::Text(text) => if !is_char_model(*inner) {
                (arena, Err(FfiError::TypeMismatch))
            } else if arena_end(arena.bytes) + text@.len() + 1 > isize::MAX {
                (arena, Err(FfiError::AllocationFailure))
            } else {
                put(
                    appended(arena, text@ + seq![0u8]),
                    ptr,
                    address_bytes(arena_end(arena.bytes)),
                )
            },
            _ => (arena, Err(FfiError::TypeMismatch)),
        },
        TypeModel::Function(_, _) => match v {
            HostValue::Integer(n) => put(arena, ptr, address_bytes(n as int)),
            HostValue::Handle(addr) => put(arena, ptr, address_bytes(addr as int)),
            _ => (arena, Err(FfiError::TypeMismatch)),
        },
        TypeModel::VLA(_) => (arena, Err(FfiError::InvalidVlaSize)),
        TypeModel::Typedef(_, inner) => written(arena, ptr, *inner, v),
        TypeModel::Array(elem, count) => match v {
            HostValue::Sequence(items) | HostValue::Table { items, .. } => written_elements(
                arena,
                ptr,
                *elem,
                items@,
                count,
                0,
            ),
            HostValue::Text(text) => if is_char_model(*elem) {
                put(arena, ptr, text_in_array(text@, count))
            } else {
                (arena, Err(FfiError::TypeMismatch))
            },
            _ => (arena, Err(FfiError::TypeMismatch)),
        },
        TypeModel::Struct(_, fields) => match v {
            HostValue::Mapping(entries) | HostValue::Table { entries, .. } => written_fields(
                arena,
                ptr,
                fields,
                entries@,
                0,
            ),
            _ => (arena, Err(FfiError::TypeMismatch)),
        },
        TypeModel::Union(_, fields) => match v {
            HostValue::Mapping(entries) | HostValue::Table { entries, .. } => written_first(
                arena,
                ptr,
                fields,
                entries@,
                0,
            ),
            _ => (arena, Err(FfiError::TypeMismatch)),
        },
    }
}

/// Whether the type is `char` or `unsigned char`, under whatever names.
pub fn is_char_type(t: &CType) -> (b: bool)
    ensures
        b == is_char_model(t@),
{
    match underlying_type(t) {
        CType::Char | CType::UChar => true,
        _ => {
            proof {
                reveal_with_fuel(crate::ctype::type_model, 1);
            }
            false
        },
    }
}

/// The bytes that a host value becomes in a scalar of the given kind.
fn encode_scalar(k: Scalar, value: &HostValue) -> (r: Result<Vec<u8>, FfiError>)
    ensures
        match (r, scalar_bytes(k, *value)) {
            (Ok(data), Ok(bytes)) => data@ == bytes,
            (Err(e), Err(f)) => e == f,
            _ => false,
        },
{
    match k.class() {
        ScalarClass::Integer { width, signed: _ } => match value {
            HostValue::Integer(n) => Ok(encode_integer(*n, width)),
            HostValue::Number(bits) => {
                let whole = crate::ieee::double_to_integer(*bits);
                proof {
                    crate::codec::lemma_wrapped_bytes(
                        crate::ieee::double_whole(*bits),
                        width as nat,
                    );
                }
                Ok(encode_integer(whole, width))
            },
            _ => Err(FfiError::TypeMismatch),
        },
        ScalarClass::Single => match value {
            HostValue::Integer(n) => Ok(
                encode_unsigned(crate::ieee::integer_to_single(*n) as u64, 4),
            ),
            HostValue::Number(bits) => Ok(
                encode_unsigned(crate::ieee::double_to_single(*bits) as u64, 4),
            ),
            _ => Err(FfiError::TypeMismatch),
        },
        ScalarClass::Double => match value {
            HostValue::Integer(n) => Ok(encode_unsigned(crate::ieee::integer_to_double(*n), 8)),
            HostValue::Number(bits) => Ok(encode_unsigned(*bits, 8)),
            _ => Err(FfiError::TypeMismatch),
        },
        ScalarClass::Boolean => match value {
            HostValue::Boolean(b) => {
                let mut data: Vec<u8> = Vec::new();
                data.push(if *b {
                    1
                } else {
                    0
                });
                assert(data@ =~= seq![bool_byte(*b)]);
                Ok(data)
            },
            HostValue::Integer(n) => {
                let mut data: Vec<u8> = Vec::new();
                data.push(if *n != 0 {
                    1
                } else {
                    0
                });
                assert(data@ =~= seq![bool_byte(*n != 0)]);
                Ok(data)
            },
            _ => Err(FfiError::TypeMismatch),
        },
        ScalarClass::Void => Err(FfiError::TypeMismatch),
    }
}

/// Puts an address into the pointer at `ptr`.
fn write_address(mem: &mut Memory, ptr: usize, addr: usize) -> (r: Result<(), FfiError>)
    ensures
        final(mem).live() == old(mem).live(),
        (final(mem).arena(), r) == put(old(mem).arena(), ptr as int, address_bytes(addr as int)),
        old(mem).well_formed() ==> final(mem).well_formed(),
{
    let data = encode_unsigned(addr as u64, pointer_size());
    mem.write(ptr, &data)
}

/// Writes a host value at `ptr`, as a value of the given type: see
/// [`written`] for what each type takes and what becomes of it.
///
/// On an error the bytes written before it stay written.
pub fn write_value_to_ptr(mem: &mut Memory, ptr: usize, ctype: &CType, value: &HostValue) -> (r:
    Result<(), FfiError>)
    requires
        ctype@.representable(),
    ensures
        final(mem).live() == old(mem).live(),
        (final(mem).arena(), r) == written(old(mem).arena(), ptr as int, ctype@, *value),
        old(mem).well_formed() ==> final(mem).well_formed(),
    decreases ctype,
{
    match ctype {
        CType::Ptr(inner) => {
            match value {
                HostValue::Integer(n) => {
                    let data = encode_integer(*n, pointer_size());
                    mem.write(ptr, &data)
                },
                HostValue::Handle(addr) => write_address(mem, ptr, *addr),
                HostValue::Nil => write_address(mem, ptr, 0),
                HostValue::Text(text) => {
                    if !is_char_type(inner) {
                        return Err(FfiError::TypeMismatch);
                    }
                    let mut copy: Vec<u8> = Vec::new();
                    let mut i: usize = 0;
                    while i < text.len()
                        invariant
                            i <= text@.len(),
                            copy@ == text@.subrange(0, i as int),
                        decreases text.len() - i,
                    {
                        copy.push(text[i]);
                        i += 1;
                        assert(copy@ =~= text@.subrange(0, i as int));
                    }
                    copy.push(0);
                    assert(copy@ =~= text@ + seq![0u8]);
                    match mem.append(&copy) {
                        Ok(addr) => write_address(mem, ptr, addr),
                        Err(e) => Err(e),
                    }
                },
                _ => Err(FfiError::TypeMismatch),
            }
        },
        CType::Function(_, _) => {
            match value {
                HostValue::Integer(n) => {
                    let data = encode_integer(*n, pointer_size());
                    mem.write(ptr, &data)
                },
                HostValue::Handle(addr) => write_address(mem, ptr, *addr),
                _ => Err(FfiError::TypeMismatch),
            }
        },
        CType::VLA(_) => Err(FfiError::InvalidVlaSize),
        CType::Typedef(_, inner) => write_value_to_ptr(mem, ptr, inner, value),
        CType::Array(elem, count) => {
            match value {
                HostValue::Sequence(items) | HostValue::Table { items, .. } => {
                    let size = elem.size();
                    let mut k: usize = 0;
                    while k < *count && k < items.len()
                        invariant
                            mem.live() == old(mem).live(),
                            old(mem).well_formed() ==> mem.well_formed(),
                            elem@.representable(),
                            size == elem@.size(),
                            size * *count <= usize::MAX,
                            ctype matches CType::Array(e, c) && e == elem && c == count,
                            written(old(mem).arena(), ptr as int, ctype@, *value) == written_elements(
                                old(mem).arena(),
                                ptr as int,
                                elem@,
                                items@,
                                *count as nat,
                                0,
                            ),
                            written_elements(
                                old(mem).arena(),
                                ptr as int,
                                elem@,
                                items@,
                                *count as nat,
                                0,
                            ) == written_elements(
                                mem.arena(),
                                ptr as int,
                                elem@,
                                items@,
                                *count as nat,
                                k as nat,
                            ),
                        decreases items.len() - k,
                    {
                        assert(k * size <= *count * size) by (nonlinear_arith)
                            requires
                                k <= *count,
                        ;
                        assert(size * *count == *count * size) by (nonlinear_arith);
                        let offset = k * size;
                        if offset > usize::MAX - ptr {
                            return Err(FfiError::InvalidAddress);
                        }
                        match write_value_to_ptr(mem, ptr + offset, elem, &items[k]) {
                            Ok(_) => {},
                            Err(e) => {
                                return Err(e);
                            },
                        }
                        k += 1;
                    }
                    Ok(())
                },
                HostValue::Text(text) => {
                    if !is_char_type(elem) {
                        return Err(FfiError::TypeMismatch);
                    }
                    let mut data: Vec<u8> = Vec::new();
                    let mut i: usize = 0;
                    while i < text.len() && i < *count
                        invariant
                            i <= text@.len(),
                            i <= *count,
                            data@ == text@.subrange(0, i as int),
                        decreases text.len() - i,
                    {
                        data.push(text[i]);
                        i += 1;
                        assert(data@ =~= text@.subrange(0, i as int));
                    }
                    if i < *count {
                        data.push(0);
                    }
                    assert(data@ =~= text_in_array(text@, *count as nat));
                    mem.write(ptr, &data)
                },
                _ => Err(FfiError::TypeMismatch),
            }
        },
        CType::Struct(_, fields) => {
            proof {
                crate::ctype::lemma_aggregate_models(*ctype);
            }
            match value {
                HostValue::Mapping(entries) | HostValue::Table { entries, .. } => {
                    let ghost models = field_models(fields@);
                    let mut k: usize = 0;
                    while k < fields.len()
                        invariant
                            k <= fields@.len(),
                            mem.live() == old(mem).live(),
                            old(mem).well_formed() ==> mem.well_formed(),
                            models == field_models(fields@),
                            crate::ctype::fields_representable(models, models.len()),
                            ctype matches CType::Struct(_, fs) && fs == fields,
                            written(old(mem).arena(), ptr as int, ctype@, *value) == written_fields(
                                old(mem).arena(),
                                ptr as int,
                                models,
                                entries@,
                                0,
                            ),
                            written_fields(old(mem).arena(), ptr as int, models, entries@, 0)
                                == written_fields(mem.arena(), ptr as int, models, entries@, k as nat),
                        decreases fields.len() - k,
                    {
                        proof {
                            crate::ctype::lemma_field_representable(
                                models,
                                models.len(),
                                k as int,
                            );
                        }
                        let key = fields[k].name.as_str().as_bytes_vec();
                        match find_entry(entries, &key) {
                            None => {},
                            Some(i) => {
                                if fields[k].offset > usize::MAX - ptr {
                                    return Err(FfiError::InvalidAddress);
                                }
                                match write_value_to_ptr(
                                    mem,
                                    ptr + fields[k].offset,
                                    &fields[k].ctype,
                                    &entries[i].value,
                                ) {
                                    Ok(_) => {},
                                    Err(e) => {
                                        return Err(e);
                                    },
                                }
                            },
                        }
                        k += 1;
                    }
                    Ok(())
                },
                _ => Err(FfiError::TypeMismatch),
            }
        },
        CType::Union(_, fields) => {
            proof {
                crate::ctype::lemma_aggregate_models(*ctype);
            }
            match value {
                HostValue::Mapping(entries) | HostValue::Table { entries, .. } => {
                    let ghost models = field_models(fields@);
                    let mut k: usize = 0;
                    while k < fields.len()
                        invariant
                            k <= fields@.len(),
                            mem == old(mem),
                            models == field_models(fields@),
                            crate::ctype::fields_representable(models, models.len()),
                            ctype matches CType::Union(_, fs) && fs == fields,
                            written(old(mem).arena(), ptr as int, ctype@, *value) == written_first(
                                old(mem).arena(),
                                ptr as int,
                                models,
                                entries@,
                                0,
                            ),
                            written_first(old(mem).arena(), ptr as int, models, entries@, 0)
                                == written_first(mem.arena(), ptr as int, models, entries@, k as nat),
                        decreases fields.len() - k,
                    {
                        proof {
                            crate::ctype::lemma_field_representable(
                                models,
                                models.len(),
                                k as int,
                            );
                        }
                        let key = fields[k].name.as_str().as_bytes_vec();
                        match find_entry(entries, &key) {
                            None => {},
                            Some(i) => {
                                if fields[k].offset > usize::MAX - ptr {
                                    return Err(FfiError::InvalidAddress);
                                }
                                return write_value_to_ptr(
                                    mem,
                                    ptr + fields[k].offset,
                                    &fields[k].ctype,
                                    &entries[i].value,
                                );
                            },
                        }
                        k += 1;
                    }
                    Ok(())
                },
                _ => Err(FfiError::TypeMismatch),
            }
        },
        _ => {
            match ctype.as_scalar() {
                Some(k) => match encode_scalar(k, value) {
                    Ok(data) => mem.write(ptr, &data),
                    Err(e) => Err(e),
                },
                None => Err(FfiError::TypeMismatch),
            }
        },
    }
}


/// What is read at `ptr`, as a value of type `t`, from the bytes of the
/// memory.
///
/// An integer is read in its width, signed or not, and widened to 64 bits;
/// a `bool` is true where its byte is not zero; a single is widened to the
/// double that it is, and a double is read as it is.  A pointer gives a
/// view of what it points to: the type that it points to, at the address
/// that it holds.  A function gives a view of its own type at the address
/// that it holds.  An array, a struct and a union give a view of
/// themselves, in place.  Another name for a type reads as the type.
/// `void` and an array of unknown length cannot be read.
pub open spec fn read_model(bytes: Seq<u8>, ptr: int, t: TypeModel) -> Result<ValueModel, FfiError>
    decreases t,
{
    match t {
        TypeModel::Scalar(k) => match k.spec_class() {
            ScalarClass::Integer { width, signed } => match fault(bytes, ptr, width as int) {
                Some(e) => Err(e),
                None => Ok(
                    ValueModel::Integer(host_integer(load(bytes, ptr, width as int), signed)),
                ),
            },
            ScalarClass::Boolean => match fault(bytes, ptr, 1) {
                Some(e) => Err(e),
                None => Ok(ValueModel::Boolean(load(bytes, ptr, 1)[0] != 0)),
            },
            ScalarClass::Single => match fault(bytes, ptr, 4) {
                Some(e) => Err(e),
                None => Ok(
                    ValueModel::Number(
                        crate::ieee::double_of_single(le_value(load(bytes, ptr, 4)) as u32),
                    ),
                ),
            },
            ScalarClass::Double => match fault(bytes, ptr, 8) {
                Some(e) => Err(e),
                None => Ok(ValueModel::Number(le_value(load(bytes, ptr, 8)))),
            },
            ScalarClass::Void => Err(FfiError::TypeMismatch),
        },
        TypeModel::Ptr(inner) => match fault(bytes, ptr, word_size() as int) {
            Some(e) => Err(e),
            None => if inner.representable() {
                Ok(
                    ValueModel::Handle {
                        ctype: *inner,
                        ptr: le_value(load(bytes, ptr, word_size() as int)),
                        size: inner.size(),
                    },
                )
            } else {
                Err(FfiError::AllocationFailure)
            },
        },
        TypeModel::Function(_, _) => match fault(bytes, ptr, word_size() as int) {
            Some(e) => Err(e),
            None => Ok(
                ValueModel::Handle {
                    ctype: t,
                    ptr: le_value(load(bytes, ptr, word_size() as int)),
                    size: word_size(),
                },
            ),
        },
        TypeModel::VLA(_) => Err(FfiError::InvalidVlaSize),
        TypeModel::Typedef(_, inner) => read_model(bytes, ptr, *inner),
        TypeModel::Array(_, _) | TypeModel::Struct(_, _) | TypeModel::Union(_, _) => if ptr < 0
            || !t.representable() {
            Err(FfiError::AllocationFailure)
        } else {
            Ok(ValueModel::Handle { ctype: t, ptr: ptr as nat, size: t.size() })
        },
    }
}

/// Whether an outcome of a read is the one that the model calls for.
pub open spec fn read_is(r: Result<DynamicValue, FfiError>, model: Result<ValueModel, FfiError>)
    -> bool {
    match (r, model) {
        (Ok(v), Ok(m)) => v@ == m && (v matches DynamicValue::Handle(cd) ==> !cd.owned
            && !cd.small_buffer),
        (Err(e), Err(f)) => e == f,
        _ => false,
    }
}

/// The address that the pointer at `ptr` holds.
pub fn read_address(mem: &Memory, ptr: usize) -> (r: Result<usize, FfiError>)
    ensures
        match fault(mem@, ptr as int, word_size() as int) {
            Some(e) => r == Err::<usize, FfiError>(e),
            None => r == Ok::<usize, FfiError>(
                le_value(load(mem@, ptr as int, word_size() as int)) as usize,
            ) && le_value(load(mem@, ptr as int, word_size() as int)) <= usize::MAX,
        },
{
    match mem.read(ptr, pointer_size()) {
        Ok(bytes) => {
            let a = decode_unsigned(&bytes);
            proof {
                crate::codec::lemma_le_value_bound(bytes@);
                crate::codec::lemma_pow256_values();
                crate::ctype::lemma_word_layout();
            }
            Ok(a as usize)
        },
        Err(e) => Err(e),
    }
}

/// Reads the value at `ptr`, as a value of the given type: see
/// [`read_model`] for what each type gives.
pub fn read_ctype_value(mem: &Memory, ptr: usize, ctype: &CType) -> (r: Result<
    DynamicValue,
    FfiError,
>)
    ensures
        read_is(r, read_model(mem@, ptr as int, ctype@)),
    decreases ctype,
{
    match ctype {
        CType::Ptr(inner) => {
            let addr = match read_address(mem, ptr) {
                Ok(a) => a,
                Err(e) => {
                    return Err(e);
                },
            };
            match inner.checked_size() {
                Some(size) => Ok(
                    DynamicValue::Handle(
                        CData {
                            ctype: CType::clone(inner),
                            ptr: addr,
                            owned: false,
                            size,
                            small_buffer: false,
                        },
                    ),
                ),
                None => Err(FfiError::AllocationFailure),
            }
        },
        CType::Function(_, _) => {
            let addr = match read_address(mem, ptr) {
                Ok(a) => a,
                Err(e) => {
                    return Err(e);
                },
            };
            Ok(
                DynamicValue::Handle(
                    CData {
                        ctype: ctype.clone(),
                        ptr: addr,
                        owned: false,
                        size: pointer_size(),
                        small_buffer: false,
                    },
                ),
            )
        },
        CType::VLA(_) => Err(FfiError::InvalidVlaSize),
        CType::Typedef(_, inner) => read_ctype_value(mem, ptr, inner),
        CType::Array(_, _) | CType::Struct(_, _) | CType::Union(_, _) => {
            match ctype.checked_size() {
                Some(size) => Ok(
                    DynamicValue::Handle(
                        CData {
                            ctype: ctype.clone(),
                            ptr,
                            owned: false,
                            size,
                            small_buffer: false,
                        },
                    ),
                ),
                None => Err(FfiError::AllocationFailure),
            }
        },
        _ => {
            let k = match ctype.as_scalar() {
                Some(k) => k,
                None => {
                    return Err(FfiError::TypeMismatch);
                },
            };
            match k.class() {
                ScalarClass::Integer { width, signed } => match mem.read(ptr, width) {
                    Ok(bytes) => Ok(DynamicValue::Integer(decode_integer(&bytes, signed))),
                    Err(e) => Err(e),
                },
                ScalarClass::Boolean => match mem.read(ptr, 1) {
                    Ok(bytes) => Ok(DynamicValue::Boolean(bytes[0] != 0)),
                    Err(e) => Err(e),
                },
                ScalarClass::Single => match mem.read(ptr, 4) {
                    Ok(bytes) => {
                        let bits = decode_unsigned(&bytes);
                        proof {
                            crate::codec::lemma_le_value_bound(bytes@);
                            crate::codec::lemma_pow256_values();
                        }
                        Ok(DynamicValue::Number(crate::ieee::single_to_double(bits as u32)))
                    },
                    Err(e) => Err(e),
                },
                ScalarClass::Double => match mem.read(ptr, 8) {
                    Ok(bytes) => Ok(DynamicValue::Number(decode_unsigned(&bytes))),
                    Err(e) => Err(e),
                },
                ScalarClass::Void => Err(FfiError::TypeMismatch),
            }
        },
    }
}


/// Bytes that were stored where they can be reached are the bytes that are
/// loaded from there; the memory is as large as it was, and its other
/// bytes are as they were.
pub proof fn lemma_store_load(bytes: Seq<u8>, addr: int, data: Seq<u8>)
    requires
        fault(bytes, addr, data.len() as int) is None,
    ensures
        store(bytes, addr, data).1 is Ok,
        store(bytes, addr, data).0.len() == bytes.len(),
        load(store(bytes, addr, data).0, addr, data.len() as int) == data,
        forall|i: int|
            0 <= i < bytes.len() && !(addr - crate::memory::BASE_ADDRESS <= i < addr
                - crate::memory::BASE_ADDRESS + data.len()) ==> store(bytes, addr, data).0[i]
                == bytes[i],
{
    assert(load(store(bytes, addr, data).0, addr, data.len() as int) =~= data);
}

/// An integer that is written and read back comes back narrowed to the
/// kind of the place, and so unchanged where it is in the range of that
/// kind; from a place of eight bytes it comes back as the signed number
/// with those bytes.  A number comes back as its whole part, narrowed
/// alike.
pub proof fn lemma_integer_round_trip(arena: Arena, ptr: int, k: Scalar, v: HostValue)
    requires
        k.spec_class() is Integer,
        v is Integer || v is Number,
        fault(arena.bytes, ptr, k.spec_width() as int) is None,
    ensures
        ({
            let whole = match v {
                HostValue::Integer(n) => n as int,
                HostValue::Number(bits) => crate::ieee::double_whole(bits),
                _ => 0,
            };
            let width = k.spec_width();
            let signed = k.spec_signed();
            let (after, r) = written(arena, ptr, TypeModel::Scalar(k), v);
            &&& r is Ok
            &&& after.bytes.len() == arena.bytes.len()
            &&& read_model(after.bytes, ptr, TypeModel::Scalar(k)) matches Ok(ValueModel::Integer(x))
            &&& (width < 8 || signed) ==> x == crate::codec::narrow(whole, width, signed)
            &&& width == 8 ==> x == crate::codec::narrow(whole, 8, true)
            &&& crate::codec::in_range(whole, width, signed) && crate::codec::in_range(
                whole,
                8,
                true,
            ) ==> x == whole
        }),
{
    let whole = match v {
        HostValue::Integer(n) => n as int,
        HostValue::Number(bits) => crate::ieee::double_whole(bits),
        _ => 0,
    };
    let width = k.spec_width();
    let signed = k.spec_signed();
    crate::ctype::lemma_scalar_layout(k);
    let data = le_bytes(whole, width);
    crate::codec::lemma_le_bytes_len(whole, width);
    lemma_store_load(arena.bytes, ptr, data);
    crate::codec::lemma_decoded_of_le_bytes(whole, width, signed);
    crate::codec::lemma_pow256_values();
    crate::codec::lemma_narrow_range(whole, width, signed);
    let low = crate::codec::narrow(whole, width, signed);
    if width < 8 || signed {
        crate::codec::lemma_pow256_monotone(width, 8);
        assert(crate::codec::in_range(low, 8, true));
        crate::codec::lemma_narrow_in_range(low, 8, true);
    } else {
        // Eight unsigned bytes come back as the signed number with the same bytes.
        crate::codec::lemma_narrow_bytes(whole, 8, false);
        crate::codec::lemma_narrow_bytes(low, 8, true);
        crate::codec::lemma_narrow_range(low, 8, true);
        crate::codec::lemma_narrow_range(whole, 8, true);
        let back = crate::codec::narrow(low, 8, true);
        let wrapped = crate::codec::narrow(whole, 8, true);
        crate::codec::lemma_narrow_bytes(whole, 8, true);
        assert(le_bytes(back, 8) == le_bytes(wrapped, 8));
        crate::codec::lemma_decoded_of_le_bytes(back, 8, true);
        crate::codec::lemma_decoded_of_le_bytes(wrapped, 8, true);
        crate::codec::lemma_narrow_in_range(back, 8, true);
        crate::codec::lemma_narrow_in_range(wrapped, 8, true);
    }
    if crate::codec::in_range(whole, width, signed) && crate::codec::in_range(whole, 8, true) {
        crate::codec::lemma_narrow_in_range(whole, width, signed);
        crate::codec::lemma_narrow_in_range(whole, 8, true);
    }
}

/// A truth value that is written and read back comes back as it was, and
/// so does a number that is written into a double.  An integer that is
/// written into a double comes back as the nearest double.  What is
/// written into a single comes back as the double that the nearest single
/// is.
pub proof fn lemma_plain_round_trip(arena: Arena, ptr: int, k: Scalar, v: HostValue)
    requires
        k == Scalar::Bool || k == Scalar::Float || k == Scalar::Double,
        k == Scalar::Bool ==> v is Boolean,
        k != Scalar::Bool ==> v is Integer || v is Number,
        fault(arena.bytes, ptr, k.spec_size() as int) is None,
    ensures
        ({
            let (after, r) = written(arena, ptr, TypeModel::Scalar(k), v);
            &&& r is Ok
            &&& after.bytes.len() == arena.bytes.len()
            &&& read_model(after.bytes, ptr, TypeModel::Scalar(k)) == Ok::<ValueModel, FfiError>(
                match (k, v) {
                    (Scalar::Bool, HostValue::Boolean(b)) => ValueModel::Boolean(b),
                    (Scalar::Float, HostValue::Integer(n)) => ValueModel::Number(
                        crate::ieee::double_of_single(
                            crate::ieee::single_of_integer(n as int) as u32,
                        ),
                    ),
                    (Scalar::Float, HostValue::Number(bits)) => ValueModel::Number(
                        crate::ieee::double_of_single(crate::ieee::single_of_double(bits) as u32),
                    ),
                    (_, HostValue::Integer(n)) => ValueModel::Number(
                        crate::ieee::double_of_integer(n as int),
                    ),
                    (_, HostValue::Number(bits)) => ValueModel::Number(bits as nat),
                    _ => ValueModel::Boolean(false),
                },
            )
        }),
{
    let data = scalar_bytes(k, v)->Ok_0;
    crate::codec::lemma_pow256_values();
    crate::ieee::lemma_pow2_values();
    match (k, v) {
        (Scalar::Bool, HostValue::Boolean(b)) => {
            lemma_store_load(arena.bytes, ptr, data);
        },
        (Scalar::Float, HostValue::Integer(n)) => {
            let single = crate::ieee::single_of_integer(n as int);
            crate::ieee::lemma_single_bits(n as int);
            crate::codec::lemma_le_bytes_len(single as int, 4);
            lemma_store_load(arena.bytes, ptr, data);
            crate::codec::lemma_le_value_of_le_bytes(single as int, 4);
            vstd::arithmetic::div_mod::lemma_small_mod(single, crate::codec::pow256(4));
        },
        (Scalar::Float, HostValue::Number(bits)) => {
            let single = crate::ieee::single_of_double(bits);
            crate::ieee::lemma_single_of_double_bits(bits);
            crate::codec::lemma_le_bytes_len(single as int, 4);
            lemma_store_load(arena.bytes, ptr, data);
            crate::codec::lemma_le_value_of_le_bytes(single as int, 4);
            vstd::arithmetic::div_mod::lemma_small_mod(single, crate::codec::pow256(4));
        },
        (_, HostValue::Integer(n)) => {
            let double = crate::ieee::double_of_integer(n as int);
            crate::ieee::lemma_double_bits(n as int);
            crate::codec::lemma_le_bytes_len(double as int, 8);
            lemma_store_load(arena.bytes, ptr, data);
            crate::codec::lemma_le_value_of_le_bytes(double as int, 8);
            vstd::arithmetic::div_mod::lemma_small_mod(double, crate::codec::pow256(8));
        },
        (_, HostValue::Number(bits)) => {
            crate::codec::lemma_le_bytes_len(bits as int, 8);
            lemma_store_load(arena.bytes, ptr, data);
            crate::codec::lemma_le_value_of_le_bytes(bits as int, 8);
            vstd::arithmetic::div_mod::lemma_small_mod(bits as nat, crate::codec::pow256(8));
        },
        _ => {},
    }
}

/// A number that a single holds comes back from a `float` as it was
/// written.
pub proof fn lemma_single_round_trip(arena: Arena, ptr: int, single: u32)
    requires
        !(crate::ieee::single_exponent(single) == 0xff && crate::ieee::single_fraction(single)
            != 0),
        fault(arena.bytes, ptr, 4) is None,
    ensures
        crate::ieee::double_of_single(single) <= u64::MAX,
        ({
            let v = HostValue::Number(crate::ieee::double_of_single(single) as u64);
            let (after, r) = written(arena, ptr, TypeModel::Scalar(Scalar::Float), v);
            &&& r is Ok
            &&& read_model(after.bytes, ptr, TypeModel::Scalar(Scalar::Float)) == Ok::<
                ValueModel,
                FfiError,
            >(ValueModel::Number(crate::ieee::double_of_single(single)))
        }),
{
    crate::ieee::lemma_single_round_trip(single);
    lemma_plain_round_trip(
        arena,
        ptr,
        Scalar::Float,
        HostValue::Number(crate::ieee::double_of_single(single) as u64),
    );
}

/// An integer of at most 53 binary digits that is written into a `double`
/// comes back as a number whose whole part is the integer.
pub proof fn lemma_integer_in_double(arena: Arena, ptr: int, n: i64)
    requires
        -0x20_0000_0000_0000 < n < 0x20_0000_0000_0000,
        fault(arena.bytes, ptr, 8) is None,
    ensures
        ({
            let (after, r) = written(
                arena,
                ptr,
                TypeModel::Scalar(Scalar::Double),
                HostValue::Integer(n),
            );
            &&& r is Ok
            &&& read_model(after.bytes, ptr, TypeModel::Scalar(Scalar::Double)) matches Ok(
                ValueModel::Number(bits),
            )
            &&& bits <= u64::MAX
            &&& crate::ieee::double_whole(bits as u64) == n
        }),
{
    crate::ieee::lemma_integer_round_trip(n as int);
    lemma_plain_round_trip(arena, ptr, Scalar::Double, HostValue::Integer(n));
}

/// The address of a handle that is written into a pointer and read back
/// comes back as a view, at that address, of what the pointer points to.
pub proof fn lemma_pointer_round_trip(arena: Arena, ptr: int, inner: TypeModel, addr: usize)
    requires
        inner.representable(),
        fault(arena.bytes, ptr, word_size() as int) is None,
    ensures
        ({
            let t = TypeModel::Ptr(Box::new(inner));
            let (after, r) = written(arena, ptr, t, HostValue::Handle(addr));
            &&& r is Ok
            &&& after.bytes.len() == arena.bytes.len()
            &&& read_model(after.bytes, ptr, t) == Ok::<ValueModel, FfiError>(
                ValueModel::Handle { ctype: inner, ptr: addr as nat, size: inner.size() },
            )
        }),
{
    crate::ctype::lemma_word_layout();
    crate::codec::lemma_pow256_values();
    let data = address_bytes(addr as int);
    crate::codec::lemma_le_bytes_len(addr as int, word_size());
    lemma_store_load(arena.bytes, ptr, data);
    crate::codec::lemma_le_value_of_le_bytes(addr as int, word_size());
    vstd::arithmetic::div_mod::lemma_small_mod(addr as nat, crate::codec::pow256(word_size()));
}

} // verus!
