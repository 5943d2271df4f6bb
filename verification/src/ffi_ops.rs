//! The operations of the engine: the registry of named types, the
//! resolution of type names, and the making, reading and writing of values.

use crate::cdata::allotted;
use crate::cdata::CData;
use crate::cdata::underlying;
use crate::cdata::underlying_type;
use crate::codec::narrow;
use crate::ctype::CType;
use crate::ctype::FieldModel;
use crate::ctype::Scalar;
use crate::ctype::TypeModel;
use crate::ctype::word_size;
use crate::error::FfiError;
use crate::marshal::read_ctype_value;
use crate::marshal::write_value_to_ptr;
use crate::marshal::written;
use crate::memory::Block;
use crate::memory::Arena;
use crate::memory::fault;
use crate::memory::span_rest;
use crate::memory::load;
use crate::memory::Memory;
use crate::memory::SMALL_BUFFER_SIZE;
use crate::memory::store;
use crate::memory::terminated;
use crate::memory::text_at;
use crate::text::equals;
use crate::text::find_char;
use crate::text::first_index;
use crate::text::parse_decimal;
use crate::text::parse_usize;
use crate::text::skip_whitespace;
use crate::text::skip_whitespace_back;
use crate::text::starts_with;
use crate::text::to_chars;
use crate::text::to_string;
use crate::text::trim;
use crate::text::word_char;
use crate::value::DynamicValue;
use crate::value::HostValue;
use crate::value::ValueModel;
use vstd::hash_map::StringHashMap;
use vstd::prelude::*;

verus! {

/// The named types: what declarations have registered, by name.
///
/// A later registration under a name takes the place of an earlier one.
/// The types are kept in a hash map keyed by the name, whose behaviour is
/// what `vstd` states of it.
pub struct TypeRegistry {
    types: StringHashMap<CType>,
}

impl TypeRegistry {
    /// The registered types, by name.
    pub closed spec fn view(&self) -> Map<Seq<char>, TypeModel> {
        self.types@.map_values(|t: CType| t@)
    }

    /// A registry without types.
    pub fn new() -> (r: TypeRegistry)
        ensures
            r@ == Map::<Seq<char>, TypeModel>::empty(),
    {
        let r = TypeRegistry { types: StringHashMap::new() };
        assert(r@ =~= Map::<Seq<char>, TypeModel>::empty());
        r
    }

    /// The type registered under the characters from `start` up to `end`.
    fn find(&self, chars: &Vec<char>, start: usize, end: usize) -> (r: Option<CType>)
        requires
            start <= end <= chars@.len(),
        ensures
            match r {
                Some(t) => self@.dom().contains(chars@.subrange(start as int, end as int))
                    && self@[chars@.subrange(start as int, end as int)] == t@,
                None => !self@.dom().contains(chars@.subrange(start as int, end as int)),
            },
    {
        let name = to_string(chars, start, end);
        match self.types.get(name.as_str()) {
            Some(t) => Some(t.clone()),
            None => None,
        }
    }
}

/// Registers `ctype` under `name`, in place of what was registered under
/// that name before.
pub fn register_type(registry: &mut TypeRegistry, name: String, ctype: CType)
    ensures
        final(registry)@ == old(registry)@.insert(name@, ctype@),
{
    registry.types.insert(name, ctype);
    assert(registry@ =~= old(registry)@.insert(name@, ctype@));
}

/// The type registered under `name`, if there is one.
pub fn lookup_registered_type(registry: &TypeRegistry, name: &str) -> (r: Option<CType>)
    ensures
        match r {
            Some(t) => registry@.dom().contains(name@) && registry@[name@] == t@,
            None => !registry@.dom().contains(name@),
        },
{
    match registry.types.get(name) {
        Some(t) => Some(t.clone()),
        None => None,
    }
}

/// The scalar that goes by the name, if the name is that of a built-in type.
pub open spec fn basic_type(name: Seq<char>) -> Option<Scalar> {
    if name == "int"@ {
        Some(Scalar::Int)
    } else if name == "unsigned int"@ {
        Some(Scalar::UInt)
    } else if name == "char"@ {
        Some(Scalar::Char)
    } else if name == "unsigned char"@ {
        Some(Scalar::UChar)
    } else if name == "short"@ {
        Some(Scalar::Short)
    } else if name == "unsigned short"@ {
        Some(Scalar::UShort)
    } else if name == "long"@ {
        Some(Scalar::Long)
    } else if name == "unsigned long"@ {
        Some(Scalar::ULong)
    } else if name == "float"@ {
        Some(Scalar::Float)
    } else if name == "double"@ {
        Some(Scalar::Double)
    } else if name == "void"@ {
        Some(Scalar::Void)
    } else if name == "bool"@ {
        Some(Scalar::Bool)
    } else if name == "int8_t"@ {
        Some(Scalar::Int8)
    } else if name == "int16_t"@ {
        Some(Scalar::Int16)
    } else if name == "int32_t"@ {
        Some(Scalar::Int32)
    } else if name == "int64_t"@ {
        Some(Scalar::Int64)
    } else if name == "uint8_t"@ {
        Some(Scalar::UInt8)
    } else if name == "uint16_t"@ {
        Some(Scalar::UInt16)
    } else if name == "uint32_t"@ {
        Some(Scalar::UInt32)
    } else if name == "uint64_t"@ {
        Some(Scalar::UInt64)
    } else if name == "size_t"@ {
        Some(Scalar::SizeT)
    } else if name == "ssize_t"@ {
        Some(Scalar::SSizeT)
    } else {
        None
    }
}

/// Whether the part is the text of `literal`.
fn is_literal(chars: &Vec<char>, start: usize, end: usize, literal: &str) -> (b: bool)
    requires
        start <= end <= chars@.len(),
    ensures
        b == (chars@.subrange(start as int, end as int) == literal@),
{
    let text = to_chars(literal);
    equals(chars, start, end, &text)
}

/// The scalar that goes by the name in the part, if that is the name of a
/// built-in type.
fn lookup_basic_range(chars: &Vec<char>, start: usize, end: usize) -> (r: Option<Scalar>)
    requires
        start <= end <= chars@.len(),
    ensures
        r == basic_type(chars@.subrange(start as int, end as int)),
{
    if is_literal(chars, start, end, "int") {
        Some(Scalar::Int)
    } else if is_literal(chars, start, end, "unsigned int") {
        Some(Scalar::UInt)
    } else if is_literal(chars, start, end, "char") {
        Some(Scalar::Char)
    } else if is_literal(chars, start, end, "unsigned char") {
        Some(Scalar::UChar)
    } else if is_literal(chars, start, end, "short") {
        Some(Scalar::Short)
    } else if is_literal(chars, start, end, "unsigned short") {
        Some(Scalar::UShort)
    } else if is_literal(chars, start, end, "long") {
        Some(Scalar::Long)
    } else if is_literal(chars, start, end, "unsigned long") {
        Some(Scalar::ULong)
    } else if is_literal(chars, start, end, "float") {
        Some(Scalar::Float)
    } else if is_literal(chars, start, end, "double") {
        Some(Scalar::Double)
    } else if is_literal(chars, start, end, "void") {
        Some(Scalar::Void)
    } else if is_literal(chars, start, end, "bool") {
        Some(Scalar::Bool)
    } else if is_literal(chars, start, end, "int8_t") {
        Some(Scalar::Int8)
    } else if is_literal(chars, start, end, "int16_t") {
        Some(Scalar::Int16)
    } else if is_literal(chars, start, end, "int32_t") {
        Some(Scalar::Int32)
    } else if is_literal(chars, start, end, "int64_t") {
        Some(Scalar::Int64)
    } else if is_literal(chars, start, end, "uint8_t") {
        Some(Scalar::UInt8)
    } else if is_literal(chars, start, end, "uint16_t") {
        Some(Scalar::UInt16)
    } else if is_literal(chars, start, end, "uint32_t") {
        Some(Scalar::UInt32)
    } else if is_literal(chars, start, end, "uint64_t") {
        Some(Scalar::UInt64)
    } else if is_literal(chars, start, end, "size_t") {
        Some(Scalar::SizeT)
    } else if is_literal(chars, start, end, "ssize_t") {
        Some(Scalar::SSizeT)
    } else {
        None
    }
}

/// The built-in type that goes by `name`, if there is one.
pub fn lookup_basic_type(name: &str) -> (r: Option<CType>)
    ensures
        match r {
            Some(t) => basic_type(name@) matches Some(k) && t@ == TypeModel::Scalar(k),
            None => basic_type(name@) is None,
        },
{
    let chars = to_chars(name);
    assert(chars@.subrange(0, chars@.len() as int) =~= chars@);
    match lookup_basic_range(&chars, 0, chars.len()) {
        Some(k) => Some(CType::from_scalar(k)),
        None => None,
    }
}

/// Whether the text begins with the word: with its characters, and after
/// them with its end or with a character that cannot stand in a word.
pub open spec fn leads_with(s: Seq<char>, word: Seq<char>) -> bool {
    word.len() > 0 && starts_with(s, word) && (s.len() == word.len() || !word_char(
        s[word.len() as int],
    ))
}

/// The name without the qualifiers at its start: the white space around it
/// is trimmed, and as long as one of the words `const`, `volatile` and
/// `restrict` begins it, in whatever order and however often, the word is
/// taken away with the white space after it.
pub open spec fn strip_qualifiers(name: Seq<char>) -> Seq<char>
    decreases name.len(),
{
    let s = trim(name);
    if leads_with(s, "const"@) {
        proof {
            crate::text::lemma_trim_len(name);
        }
        strip_qualifiers(s.skip("const"@.len() as int))
    } else if leads_with(s, "volatile"@) {
        proof {
            crate::text::lemma_trim_len(name);
        }
        strip_qualifiers(s.skip("volatile"@.len() as int))
    } else if leads_with(s, "restrict"@) {
        proof {
            crate::text::lemma_trim_len(name);
        }
        strip_qualifiers(s.skip("restrict"@.len() as int))
    } else {
        s
    }
}

/// The array type that a count between brackets gives: `?` an array of
/// unknown length, nothing an array of no elements, a decimal number an
/// array of that many.
pub open spec fn array_type(inner: TypeModel, count: Seq<char>) -> Result<TypeModel, FfiError> {
    if count == "?"@ {
        Ok(TypeModel::VLA(Box::new(inner)))
    } else if count.len() == 0 {
        Ok(TypeModel::Array(Box::new(inner), 0))
    } else {
        match parse_decimal(count) {
            Some(n) => if n <= usize::MAX {
                Ok(TypeModel::Array(Box::new(inner), n))
            } else {
                Err(FfiError::MalformedTypeSyntax)
            },
            None => Err(FfiError::MalformedTypeSyntax),
        }
    }
}

/// Stripping qualifiers takes characters away and adds none.
pub proof fn lemma_strip_qualifiers_len(name: Seq<char>)
    ensures
        strip_qualifiers(name).len() <= name.len(),
    decreases name.len(),
{
    let s = trim(name);
    crate::text::lemma_trim_len(name);
    if leads_with(s, "const"@) {
        lemma_strip_qualifiers_len(s.skip("const"@.len() as int));
    } else if leads_with(s, "volatile"@) {
        lemma_strip_qualifiers_len(s.skip("volatile"@.len() as int));
    } else if leads_with(s, "restrict"@) {
        lemma_strip_qualifiers_len(s.skip("restrict"@.len() as int));
    }
}

/// Whichever of the three qualifiers begins a name, it is taken away: the
/// order in which they stand does not matter.
pub proof fn lemma_qualifier_taken(name: Seq<char>)
    ensures
        leads_with(trim(name), "const"@) ==> strip_qualifiers(name) == strip_qualifiers(
            trim(name).skip("const"@.len() as int),
        ),
        leads_with(trim(name), "volatile"@) ==> strip_qualifiers(name) == strip_qualifiers(
            trim(name).skip("volatile"@.len() as int),
        ),
        leads_with(trim(name), "restrict"@) ==> strip_qualifiers(name) == strip_qualifiers(
            trim(name).skip("restrict"@.len() as int),
        ),
{
    reveal_strlit("const");
    reveal_strlit("volatile");
    reveal_strlit("restrict");
    let s = trim(name);
    if s.len() > 0 {
        assert(starts_with(s, "const"@) ==> s[0] == s.take("const"@.len() as int)[0]);
        assert(starts_with(s, "volatile"@) ==> s[0] == s.take("volatile"@.len() as int)[0]);
        assert(starts_with(s, "restrict"@) ==> s[0] == s.take("restrict"@.len() as int)[0]);
    }
}

/// No qualifier begins a name once its qualifiers are stripped.
pub proof fn lemma_no_qualifier_left(name: Seq<char>)
    ensures
        !leads_with(strip_qualifiers(name), "const"@),
        !leads_with(strip_qualifiers(name), "volatile"@),
        !leads_with(strip_qualifiers(name), "restrict"@),
    decreases name.len(),
{
    let s = trim(name);
    crate::text::lemma_trim_len(name);
    if leads_with(s, "const"@) {
        lemma_no_qualifier_left(s.skip("const"@.len() as int));
    } else if leads_with(s, "volatile"@) {
        lemma_no_qualifier_left(s.skip("volatile"@.len() as int));
    } else if leads_with(s, "restrict"@) {
        lemma_no_qualifier_left(s.skip("restrict"@.len() as int));
    }
}

/// Whether the part begins with the word.
fn leads(chars: &Vec<char>, start: usize, end: usize, word: &Vec<char>) -> (b: bool)
    requires
        start <= end <= chars@.len(),
    ensures
        b == leads_with(chars@.subrange(start as int, end as int), word@),
{
    let n = word.len();
    if n == 0 || !crate::text::has_prefix(chars, start, end, word) {
        return false;
    }
    if end - start == n {
        return true;
    }
    let limit = chars.len();
    assert(chars@.subrange(start as int, end as int)[n as int] == chars@[start + n]);
    !crate::text::is_word_char(chars[start + n])
}

/// The part of the part that is left when the qualifiers at its start are
/// stripped.
fn skip_qualifiers(chars: &Vec<char>, start: usize, end: usize) -> (r: (usize, usize))
    requires
        start <= end <= chars@.len(),
    ensures
        start <= r.0 <= r.1 <= end,
        chars@.subrange(r.0 as int, r.1 as int) == strip_qualifiers(
            chars@.subrange(start as int, end as int),
        ),
{
    let konst = to_chars("const");
    let volatile = to_chars("volatile");
    let restrict = to_chars("restrict");
    let ghost name = chars@.subrange(start as int, end as int);
    let mut s: usize = start;
    let mut e: usize = end;
    let mut more = true;
    while more
        invariant
            start <= s <= e <= end <= chars@.len(),
            konst@ == "const"@,
            volatile@ == "volatile"@,
            restrict@ == "restrict"@,
            name == chars@.subrange(start as int, end as int),
            more ==> strip_qualifiers(name) == strip_qualifiers(
                chars@.subrange(s as int, e as int),
            ),
            !more ==> strip_qualifiers(name) == chars@.subrange(s as int, e as int),
        decreases
                e - s + (if more {
                    1int
                } else {
                    0int
                }),
    {
        let s1 = skip_whitespace(chars, s, e);
        let e1 = skip_whitespace_back(chars, s1, e);
        let ghost trimmed = chars@.subrange(s1 as int, e1 as int);
        assert(trimmed == trim(chars@.subrange(s as int, e as int)));
        let n = if leads(chars, s1, e1, &konst) {
            konst.len()
        } else if leads(chars, s1, e1, &volatile) {
            volatile.len()
        } else if leads(chars, s1, e1, &restrict) {
            restrict.len()
        } else {
            0
        };
        if n > 0 {
            assert(trimmed.skip(n as int) =~= chars@.subrange(s1 + n, e1 as int));
            s = s1 + n;
            e = e1;
        } else {
            s = s1;
            e = e1;
            more = false;
        }
    }
    (s, e)
}

/// The type that a name stands for.
///
/// The qualifiers at the start of the name are stripped.  What is left is,
/// in this order of preference: the name of a built-in type; a name that
/// ends in `*`, which is a pointer to what the name before the `*` stands
/// for; a name that holds a `[`, which is an array of what the name before
/// the `[` stands for, with the count that stands between the `[` and the
/// first `]`; a registered name.
pub open spec fn resolve(registry: Map<Seq<char>, TypeModel>, name: Seq<char>) -> Result<
    TypeModel,
    FfiError,
>
    decreases name.len(),
{
    let s = strip_qualifiers(name);
    match basic_type(s) {
        Some(k) => Ok(TypeModel::Scalar(k)),
        None => if s.len() > 0 && s.last() == '*' {
            proof {
                lemma_strip_qualifiers_len(name);
            }
            match resolve(registry, s.drop_last()) {
                Ok(inner) => Ok(TypeModel::Ptr(Box::new(inner))),
                Err(e) => Err(e),
            }
        } else {
            match first_index(s, '[') {
                Some(open) => {
                    proof {
                        lemma_strip_qualifiers_len(name);
                        crate::text::lemma_first_index(s, '[');
                    }
                    match resolve(registry, s.take(open)) {
                        Ok(inner) => match first_index(s, ']') {
                            Some(close) => if open < close {
                                array_type(inner, trim(s.subrange(open + 1, close)))
                            } else {
                                Err(FfiError::MalformedTypeSyntax)
                            },
                            None => Err(FfiError::MalformedTypeSyntax),
                        },
                        Err(e) => Err(e),
                    }
                },
                None => if registry.dom().contains(s) {
                    Ok(registry[s])
                } else {
                    Err(FfiError::UnknownType)
                },
            }
        },
    }
}

/// Whether an outcome is the one that the model calls for: the type with
/// that model, or that error.
pub open spec fn outcome_is(r: Result<CType, FfiError>, model: Result<TypeModel, FfiError>)
    -> bool {
    match (r, model) {
        (Ok(t), Ok(m)) => t@ == m,
        (Err(e), Err(f)) => e == f,
        _ => false,
    }
}

/// The type that the name in the part stands for.
pub(crate) fn resolve_range(
    registry: &TypeRegistry,
    chars: &Vec<char>,
    start: usize,
    end: usize,
) -> (r: Result<CType, FfiError>)
    requires
        start <= end <= chars@.len(),
    ensures
        outcome_is(r, resolve(registry@, chars@.subrange(start as int, end as int))),
    decreases end - start,
{
    let ghost name = chars@.subrange(start as int, end as int);
    let (s, e) = skip_qualifiers(chars, start, end);
    let ghost text = chars@.subrange(s as int, e as int);
    assert(text == strip_qualifiers(name));
    match lookup_basic_range(chars, s, e) {
        Some(k) => {
            return Ok(CType::from_scalar(k));
        },
        None => {},
    }
    if e > s && chars[e - 1] == '*' {
        assert(text.drop_last() =~= chars@.subrange(s as int, e - 1));
        return match resolve_range(registry, chars, s, e - 1) {
            Ok(inner) => {
                let t = CType::Ptr(Box::new(inner));
                proof {
                    reveal_with_fuel(crate::ctype::type_model, 2);
                }
                Ok(t)
            },
            Err(err) => Err(err),
        };
    }
    match find_char(chars, s, e, '[') {
        Some(open) => {
            assert(text.take(open as int) =~= chars@.subrange(s as int, s + open));
            let inner = match resolve_range(registry, chars, s, s + open) {
                Ok(inner) => inner,
                Err(err) => {
                    return Err(err);
                },
            };
            let close = match find_char(chars, s, e, ']') {
                Some(close) => close,
                None => {
                    return Err(FfiError::MalformedTypeSyntax);
                },
            };
            if close <= open {
                return Err(FfiError::MalformedTypeSyntax);
            }
            let from = s + open + 1;
            let to = s + close;
            assert(text.subrange(open + 1, close as int) =~= chars@.subrange(
                from as int,
                to as int,
            ));
            let cs = skip_whitespace(chars, from, to);
            let ce = skip_whitespace_back(chars, cs, to);
            proof {
                reveal_with_fuel(crate::ctype::type_model, 2);
            }
            if is_literal(chars, cs, ce, "?") {
                Ok(CType::VLA(Box::new(inner)))
            } else if cs == ce {
                Ok(CType::Array(Box::new(inner), 0))
            } else {
                match parse_usize(chars, cs, ce) {
                    Some(n) => Ok(CType::Array(Box::new(inner), n)),
                    None => Err(FfiError::MalformedTypeSyntax),
                }
            }
        },
        None => {
            match registry.find(chars, s, e) {
                Some(t) => Ok(t),
                None => Err(FfiError::UnknownType),
            }
        },
    }
}

/// Resolves a type name: see [`resolve`] for what each name stands for.
///
/// Fails with `UnknownType` where the name, or the name that a pointer or
/// an array is built on, is neither built in nor registered, and with
/// `MalformedTypeSyntax` where the brackets of an array do not close after
/// they open or hold anything but `?`, nothing, or a decimal count that a
/// `usize` holds.
pub fn lookup_type(registry: &TypeRegistry, name: &str) -> (r: Result<CType, FfiError>)
    ensures
        outcome_is(r, resolve(registry@, name@)),
{
    let chars = to_chars(name);
    assert(chars@.subrange(0, chars@.len() as int) =~= chars@);
    resolve_range(registry, &chars, 0, chars.len())
}


/// The number of elements that the host asks for in an array of unknown
/// length: an integer that is not negative, or the whole part of a number
/// that is finite and not negative.
pub open spec fn vla_count(init: Option<HostValue>) -> Result<nat, FfiError> {
    match init {
        Some(HostValue::Integer(n)) => if n >= 0 {
            Ok(n as nat)
        } else {
            Err(FfiError::InvalidVlaSize)
        },
        Some(HostValue::Number(bits)) => if crate::ieee::double_finite_non_negative(bits) {
            Ok(crate::ieee::double_whole_magnitude(bits))
        } else {
            Err(FfiError::InvalidVlaSize)
        },
        _ => Err(FfiError::InvalidVlaSize),
    }
}

/// The type and the size of the value that is made for a type, with the
/// host value that it is then filled from.
///
/// An array of unknown length becomes an array of as many elements as the
/// host value asks for, and is not filled.  Any other type stays as it is.
/// Where a size fits in no `usize` no value can be made.
pub open spec fn plan(t: TypeModel, init: Option<HostValue>) -> Result<
    (TypeModel, nat, Option<HostValue>),
    FfiError,
> {
    match t {
        TypeModel::VLA(elem) => match vla_count(init) {
            Ok(count) => if count <= usize::MAX && elem.representable() && elem.size() * count
                <= usize::MAX {
                Ok((TypeModel::Array(elem, count), elem.size() * count, None))
            } else {
                Err(FfiError::AllocationFailure)
            },
            Err(e) => Err(e),
        },
        _ => if t.representable() {
            Ok((t, t.size(), init))
        } else {
            Err(FfiError::AllocationFailure)
        },
    }
}

/// An array of unknown length is resolved by a count: with an integer that
/// is not negative it becomes an array of that many elements, as large as
/// they are together, and it is not filled.
pub proof fn lemma_vla_plan(elem: TypeModel, n: i64)
    requires
        0 <= n <= usize::MAX,
        elem.representable(),
        n * elem.size() <= usize::MAX,
    ensures
        plan(TypeModel::VLA(Box::new(elem)), Some(HostValue::Integer(n))) == Ok::<
            (TypeModel, nat, Option<HostValue>),
            FfiError,
        >((TypeModel::Array(Box::new(elem), n as nat), (n * elem.size()) as nat, None)),
{
    assert(elem.size() * (n as nat) == n * elem.size()) by (nonlinear_arith)
        requires
            n >= 0,
    ;
}

/// Nothing is a count for an array of unknown length but an integer that
/// is not negative and a number that is finite and not negative: without
/// one of these, and only then, the size is invalid.
pub proof fn lemma_vla_size_invalid(elem: TypeModel, init: Option<HostValue>)
    ensures
        plan(TypeModel::VLA(Box::new(elem)), init) == Err::<
            (TypeModel, nat, Option<HostValue>),
            FfiError,
        >(FfiError::InvalidVlaSize) <==> !(init matches Some(HostValue::Integer(n)) && n >= 0)
            && !(init matches Some(HostValue::Number(bits))
            && crate::ieee::double_finite_non_negative(bits)),
{
}

/// What making a value of the named type does to the memory, and what
/// comes of it: the type, the address and the size of the value, or an
/// error.
///
/// The name is resolved, the type and the size are planned, and the storage
/// is allotted.  Where a host value is given and the value has bytes, the
/// value is then filled from it.
pub open spec fn creation(
    registry: Map<Seq<char>, TypeModel>,
    arena: Arena,
    name: Seq<char>,
    init: Option<HostValue>,
) -> (Arena, Result<(TypeModel, int, nat), FfiError>) {
    match resolve(registry, name) {
        Err(e) => (arena, Err(e)),
        Ok(t) => match plan(t, init) {
            Err(e) => (arena, Err(e)),
            Ok((actual, size, fill)) => match allotted(arena, actual.alignment(), size) {
                None => (arena, Err(FfiError::AllocationFailure)),
                Some((ptr, grown)) => match fill {
                    Some(v) => if size > 0 {
                        let (after, w) = written(grown, ptr, actual, v);
                        match w {
                            Ok(_) => (after, Ok((actual, ptr, size))),
                            Err(e) => (after, Err(e)),
                        }
                    } else {
                        (grown, Ok((actual, ptr, size)))
                    },
                    None => (grown, Ok((actual, ptr, size))),
                },
            },
        },
    }
}

/// The host value behind a reference, if there is one.
pub open spec fn given(init: Option<&HostValue>) -> Option<HostValue> {
    match init {
        Some(v) => Some(*v),
        None => None,
    }
}

/// Fills a value from a host value: writes the host value at the value's
/// address, as a value of its type.  A value that is null or has no bytes
/// is left alone.
pub fn initialize_cdata(mem: &mut Memory, cdata: &CData, value: &HostValue) -> (r: Result<
    (),
    FfiError,
>)
    requires
        cdata.ctype@.representable(),
    ensures
        final(mem).live() == old(mem).live(),
        old(mem).well_formed() ==> final(mem).well_formed(),
        (final(mem).arena(), r) == if cdata.ptr == 0 || cdata.size == 0 {
            (old(mem).arena(), Ok::<(), FfiError>(()))
        } else {
            written(old(mem).arena(), cdata.ptr as int, cdata.ctype@, *value)
        },
{
    if cdata.ptr == 0 || cdata.size == 0 {
        return Ok(());
    }
    write_value_to_ptr(mem, cdata.ptr, &cdata.ctype, value)
}

/// Makes a value of the named type, and fills it from the host value where
/// one is given.
///
/// For an array of unknown length the host value is the number of elements
/// instead, and must be one: without it, or with anything but a number
/// that is not negative, the call fails with `InvalidVlaSize`.  The value
/// is then an array of that many elements.
///
/// [`creation`] says what becomes of the memory and of the call.  A value
/// that cannot be filled is released again.
pub fn new_cdata(
    registry: &TypeRegistry,
    mem: &mut Memory,
    name: &str,
    init: Option<&HostValue>,
) -> (r: Result<CData, FfiError>)
    ensures
        old(mem).well_formed() ==> final(mem).well_formed(),
        final(mem).arena() == creation(registry@, old(mem).arena(), name@, given(init)).0,
        match creation(registry@, old(mem).arena(), name@, given(init)).1 {
            Ok((t, ptr, size)) => {
                &&& r matches Ok(cd)
                &&& cd.ctype@ == t
                &&& cd.ptr == ptr
                &&& cd.size == size
                &&& cd.owned == (size > 0)
                &&& cd.small_buffer == (0 < size <= SMALL_BUFFER_SIZE)
                &&& final(mem).live() == if size > SMALL_BUFFER_SIZE {
                    old(mem).live().push(
                        Block { address: cd.ptr, size: cd.size, align: t.alignment() as usize },
                    )
                } else {
                    old(mem).live()
                }
            },
            Err(e) => r matches Err(f) && f == e && final(mem).live() == old(mem).live(),
        },
{
    let ctype = match lookup_type(registry, name) {
        Ok(t) => t,
        Err(e) => {
            return Err(e);
        },
    };
    let (actual, size, fill) = match ctype {
        CType::VLA(elem) => {
            proof {
                reveal_with_fuel(crate::ctype::type_model, 2);
            }
            let asked: Option<u64> = match init {
                Some(HostValue::Integer(n)) => {
                    if *n < 0 {
                        return Err(FfiError::InvalidVlaSize);
                    }
                    Some(*n as u64)
                },
                Some(HostValue::Number(bits)) => {
                    if !crate::ieee::finite_non_negative(*bits) {
                        return Err(FfiError::InvalidVlaSize);
                    }
                    crate::ieee::double_to_magnitude(*bits)
                },
                _ => {
                    return Err(FfiError::InvalidVlaSize);
                },
            };
            let count: usize = match asked {
                Some(n) => {
                    if n > usize::MAX as u64 {
                        return Err(FfiError::AllocationFailure);
                    }
                    n as usize
                },
                None => {
                    return Err(FfiError::AllocationFailure);
                },
            };
            let total = match elem.checked_size() {
                Some(n) => n.checked_mul(count),
                None => None,
            };
            match total {
                Some(total) => (CType::Array(elem, count), total, None),
                None => {
                    return Err(FfiError::AllocationFailure);
                },
            }
        },
        other => {
            proof {
                reveal_with_fuel(crate::ctype::type_model, 1);
            }
            match other.checked_size() {
                Some(size) => (other, size, init),
                None => {
                    return Err(FfiError::AllocationFailure);
                },
            }
        },
    };
    let ghost model = actual@;
    let mut cdata = match CData::new(mem, actual, size) {
        Ok(cd) => cd,
        Err(e) => {
            return Err(e);
        },
    };
    match fill {
        Some(value) => {
            let ghost grown = mem.live();
            match initialize_cdata(mem, &cdata, value) {
                Ok(_) => Ok(cdata),
                Err(e) => {
                    proof {
                        if size > SMALL_BUFFER_SIZE {
                            let block = Block {
                                address: cdata.ptr,
                                size,
                                align: model.alignment() as usize,
                            };
                            crate::memory::lemma_last_index(
                                grown,
                                block,
                                grown.len() - 1,
                            );
                            assert(grown.remove(grown.len() - 1) =~= old(mem).live());
                        }
                        if size > 0 {
                            crate::ctype::lemma_alignment(model);
                            crate::cdata::lemma_allotted(
                                old(mem).arena(),
                                model.alignment(),
                                size as nat,
                            );
                        }
                    }
                    cdata.release(mem);
                    Err(e)
                },
            }
        },
        None => Ok(cdata),
    }
}

/// The address that a host value gives to a view: an integer as an
/// address, wrapped to the width of one, or the address of a handle.
pub open spec fn cast_address(value: HostValue) -> Result<int, FfiError> {
    match value {
        HostValue::Integer(n) => Ok(narrow(n as int, word_size(), false)),
        HostValue::Handle(addr) => Ok(addr as int),
        _ => Err(FfiError::TypeMismatch),
    }
}

/// A view of the named type at the address that the host value gives: an
/// integer, or the handle of a value.  The view owns nothing, and the
/// memory is not looked at.
///
/// Fails as [`resolve`] says where the name stands for no type, with
/// `TypeMismatch` where the host value gives no address, and with
/// `AllocationFailure` where the size of the type fits in no `usize`.
pub fn cast_cdata(registry: &TypeRegistry, name: &str, value: &HostValue) -> (r: Result<
    CData,
    FfiError,
>)
    ensures
        match resolve(registry@, name@) {
            Err(e) => r matches Err(f) && f == e,
            Ok(t) => match cast_address(*value) {
                Err(e) => r matches Err(f) && f == e,
                Ok(addr) => if t.representable() {
                    &&& r matches Ok(cd)
                    &&& cd.ctype@ == t
                    &&& cd.ptr == addr
                    &&& !cd.owned
                    &&& !cd.small_buffer
                    &&& cd.size == t.size()
                } else {
                    r matches Err(f) && f == FfiError::AllocationFailure
                },
            },
        },
{
    let ctype = match lookup_type(registry, name) {
        Ok(t) => t,
        Err(e) => {
            return Err(e);
        },
    };
    let ptr: usize = match value {
        HostValue::Integer(n) => {
            let bytes = crate::codec::encode_integer(*n, crate::ctype::pointer_size());
            proof {
                crate::codec::lemma_le_bytes_len(*n as int, word_size());
            }
            let u = crate::codec::decode_unsigned(&bytes);
            proof {
                crate::codec::lemma_decoded_of_le_bytes(*n as int, word_size(), false);
                crate::codec::lemma_le_value_bound(bytes@);
                crate::codec::lemma_pow256_values();
                crate::ctype::lemma_word_layout();
            }
            u as usize
        },
        HostValue::Handle(addr) => *addr,
        _ => {
            return Err(FfiError::TypeMismatch);
        },
    };
    if ctype.checked_size().is_none() {
        return Err(FfiError::AllocationFailure);
    }
    Ok(CData::from_ptr(ctype, ptr, false))
}

/// A pointer to a value: a view, typed as a pointer to the value's type, of
/// the same bytes.  The view owns nothing.
pub fn get_address(cdata: &CData) -> (r: CData)
    ensures
        r.ctype@ == TypeModel::Ptr(Box::new(cdata.ctype@)),
        r.ptr == cdata.ptr,
        !r.owned,
        !r.small_buffer,
        r.size == word_size(),
{
    let t = CType::Ptr(Box::new(cdata.ctype.clone()));
    proof {
        reveal_with_fuel(crate::ctype::type_model, 2);
    }
    CData::from_ptr(t, cdata.ptr, false)
}

/// The size of the named type.
///
/// Fails as [`resolve`] says where the name stands for no type, and with
/// `AllocationFailure` where the size fits in no `usize`.
pub fn sizeof_type(registry: &TypeRegistry, name: &str) -> (r: Result<usize, FfiError>)
    ensures
        r == (match resolve(registry@, name@) {
            Err(e) => Err::<usize, FfiError>(e),
            Ok(t) => if t.representable() {
                Ok(t.size() as usize)
            } else {
                Err(FfiError::AllocationFailure)
            },
        }),
{
    match lookup_type(registry, name) {
        Ok(t) => match t.checked_size() {
            Some(n) => Ok(n),
            None => Err(FfiError::AllocationFailure),
        },
        Err(e) => Err(e),
    }
}

/// The first of the first `n` fields that goes by `name`.
pub open spec fn named_field(fields: Seq<FieldModel>, name: Seq<char>, n: nat) -> Option<int>
    decreases n,
{
    if n == 0 || n > fields.len() {
        None
    } else {
        match named_field(fields, name, (n - 1) as nat) {
            Some(i) => Some(i),
            None => if fields[n - 1].name == name {
                Some(n - 1)
            } else {
                None
            },
        }
    }
}

/// A field that is the first of its name among the fields before the next
/// one is the first of its name among all.
pub proof fn lemma_named_field_found(fields: Seq<FieldModel>, name: Seq<char>, i: int, n: nat)
    requires
        0 <= i < n <= fields.len(),
        named_field(fields, name, i as nat) is None,
        fields[i].name == name,
    ensures
        named_field(fields, name, n) == Some(i),
    decreases n,
{
    if n > i + 1 {
        lemma_named_field_found(fields, name, i, (n - 1) as nat);
    }
}

/// The offset of the named field in the named struct or union.
///
/// Fails as [`resolve`] says where the type name stands for no type, with
/// `NotAnAggregate` where the type is neither a struct nor a union, and
/// with `FieldNotFound` where it has no field of that name.
pub fn offsetof_field(registry: &TypeRegistry, name: &str, field: &str) -> (r: Result<
    usize,
    FfiError,
>)
    ensures
        r == (match resolve(registry@, name@) {
            Err(e) => Err::<usize, FfiError>(e),
            Ok(t) => match underlying(t) {
                TypeModel::Struct(_, fields) | TypeModel::Union(_, fields) => match named_field(
                    fields,
                    field@,
                    fields.len(),
                ) {
                    Some(i) => Ok(fields[i].offset as usize),
                    None => Err(FfiError::FieldNotFound),
                },
                _ => Err(FfiError::NotAnAggregate),
            },
        }),
{
    let ctype = match lookup_type(registry, name) {
        Ok(t) => t,
        Err(e) => {
            return Err(e);
        },
    };
    let shape = underlying_type(&ctype);
    match shape {
        CType::Struct(_, fields) | CType::Union(_, fields) => {
            proof {
                crate::ctype::lemma_aggregate_models(*shape);
            }
            match find_named(fields, field) {
                Some(i) => Ok(fields[i].offset),
                None => Err(FfiError::FieldNotFound),
            }
        },
        _ => {
            proof {
                reveal_with_fuel(crate::ctype::type_model, 1);
            }
            Err(FfiError::NotAnAggregate)
        },
    }
}

/// The first of the fields that goes by `name`.
pub fn find_named(fields: &Vec<crate::ctype::CField>, name: &str) -> (r: Option<usize>)
    ensures
        match r {
            Some(i) => i < fields@.len() && named_field(
                crate::ctype::field_models(fields@),
                name@,
                fields@.len(),
            ) == Some(i as int),
            None => named_field(crate::ctype::field_models(fields@), name@, fields@.len())
                is None,
        },
{
    let wanted = to_chars(name);
    let ghost models = crate::ctype::field_models(fields@);
    let mut i: usize = 0;
    while i < fields.len()
        invariant
            i <= fields@.len(),
            models == crate::ctype::field_models(fields@),
            wanted@ == name@,
            named_field(models, name@, i as nat) is None,
        decreases fields.len() - i,
    {
        let have = to_chars(fields[i].name.as_str());
        assert(have@.subrange(0, have@.len() as int) =~= have@);
        if equals(&have, 0, have.len(), &wanted) {
            proof {
                lemma_named_field_found(models, name@, i as int, fields@.len());
            }
            return Some(i);
        }
        i += 1;
    }
    None
}

/// Whether the value is of the named type.  It is of no type where the
/// name stands for none.
pub fn istype(registry: &TypeRegistry, name: &str, cdata: &CData) -> (b: bool)
    ensures
        b == (resolve(registry@, name@) matches Ok(t) && cdata.ctype@ == t),
{
    match lookup_type(registry, name) {
        Ok(expected) => cdata.ctype.same_as(&expected),
        Err(_) => false,
    }
}

/// The number that a value holds, by the bits of the double that it is.
///
/// A null value holds zero.  An `int`, an `unsigned int` and a `long` hold
/// the double nearest to their integer, a `float` the double that it is, a
/// `double` itself; a pointer holds the double nearest to its own address.
/// No other type holds a number.
pub open spec fn number_model(bytes: Seq<u8>, t: TypeModel, ptr: int, size: nat) -> Result<
    nat,
    FfiError,
> {
    if ptr == 0 {
        Ok(0)
    } else if !t.representable() {
        Err(FfiError::AllocationFailure)
    } else if size < t.size() {
        Err(FfiError::BufferTooSmall { available: size as usize, needed: t.size() as usize })
    } else {
        match underlying(t) {
            TypeModel::Scalar(Scalar::Int) | TypeModel::Scalar(Scalar::UInt) | TypeModel::Scalar(
                Scalar::Long,
            ) | TypeModel::Scalar(Scalar::Float) | TypeModel::Scalar(Scalar::Double) =>
                match crate::marshal::read_model(bytes, ptr, underlying(t)) {
                Ok(ValueModel::Integer(v)) => Ok(crate::ieee::double_of_integer(v)),
                Ok(ValueModel::Number(bits)) => Ok(bits),
                Ok(_) => Err(FfiError::TypeMismatch),
                Err(e) => Err(e),
            },
            TypeModel::Ptr(_) => Ok(crate::ieee::double_of_unsigned(ptr as nat)),
            _ => Err(FfiError::TypeMismatch),
        }
    }
}

/// The number that the value holds, by the bits of the double that it is:
/// see [`number_model`].
pub fn cdata_to_number(mem: &Memory, cdata: &CData) -> (r: Result<u64, FfiError>)
    ensures
        match (r, number_model(mem@, cdata.ctype@, cdata.ptr as int, cdata.size as nat)) {
            (Ok(bits), Ok(model)) => bits == model,
            (Err(e), Err(f)) => e == f,
            _ => false,
        },
{
    if cdata.is_null() {
        return Ok(0);
    }
    let needed = match cdata.ctype.checked_size() {
        Some(n) => n,
        None => {
            return Err(FfiError::AllocationFailure);
        },
    };
    if cdata.size < needed {
        return Err(FfiError::BufferTooSmall { available: cdata.size, needed });
    }
    let t = underlying_type(&cdata.ctype);
    match t {
        CType::Int | CType::UInt | CType::Long | CType::Float | CType::Double => {
            proof {
                reveal_with_fuel(crate::ctype::type_model, 1);
            }
            match read_ctype_value(mem, cdata.ptr, t) {
                Ok(DynamicValue::Integer(v)) => Ok(crate::ieee::integer_to_double(v)),
                Ok(DynamicValue::Number(bits)) => Ok(bits),
                Ok(_) => Err(FfiError::TypeMismatch),
                Err(e) => Err(e),
            }
        },
        CType::Ptr(_) => {
            proof {
                reveal_with_fuel(crate::ctype::type_model, 1);
            }
            Ok(crate::ieee::unsigned_to_double(cdata.ptr as u64))
        },
        _ => {
            proof {
                reveal_with_fuel(crate::ctype::type_model, 1);
            }
            Err(FfiError::TypeMismatch)
        },
    }
}

/// How many bytes a value may hold text in: the bytes that an array of
/// characters is known to hold, and, for a pointer to characters and for
/// an array of them of unknown length, the bytes from the address to the
/// end of the extent that it lies in.  A value of another type holds no
/// text, and a pointer into no extent points at none.  Names for types are
/// seen through.
pub open spec fn text_limit(extents: Seq<Block>, t: TypeModel, ptr: int, size: nat) -> Result<
    nat,
    FfiError,
> {
    match underlying(t) {
        TypeModel::Array(inner, _) => if crate::marshal::is_char_model(*inner) {
            Ok(size)
        } else {
            Err(FfiError::TypeMismatch)
        },
        TypeModel::Ptr(inner) | TypeModel::VLA(inner) => if crate::marshal::is_char_model(
            *inner,
        ) {
            match span_rest(extents, ptr) {
                Some(rest) => Ok(rest),
                None => Err(FfiError::InvalidAddress),
            }
        } else {
            Err(FfiError::TypeMismatch)
        },
        _ => Err(FfiError::TypeMismatch),
    }
}

/// Why a value holds no text, if it holds none: it is null, its type holds
/// no text, its address lies in no storage, or no zero byte stands among
/// the bytes that it may hold text in.
pub open spec fn text_fault(arena: Arena, t: TypeModel, ptr: int, size: nat) -> Option<FfiError> {
    if ptr == 0 {
        Some(FfiError::NullPointerAccess)
    } else {
        match text_limit(arena.extents, t, ptr, size) {
            Err(e) => Some(e),
            Ok(limit) => if fault(arena.bytes, ptr, 0) is Some {
                Some(FfiError::InvalidAddress)
            } else if !terminated(arena.bytes, ptr, limit) {
                Some(FfiError::UnterminatedString)
            } else {
                None
            },
        }
    }
}

/// The text that a value holds: the bytes from its address up to the first
/// zero byte among those that it may hold text in.
pub open spec fn text_of(arena: Arena, t: TypeModel, ptr: int, size: nat) -> Seq<u8> {
    match text_limit(arena.extents, t, ptr, size) {
        Ok(limit) => text_at(arena.bytes, ptr, limit),
        Err(_) => Seq::empty(),
    }
}

/// An array of characters holds no text unless a zero byte stands among
/// the bytes that it is known to hold, whatever follows them in the memory.
pub proof fn lemma_array_text_bounded(
    arena: Arena,
    elem: TypeModel,
    count: nat,
    ptr: int,
    size: nat,
)
    requires
        ptr != 0,
        crate::marshal::is_char_model(elem),
        crate::memory::readable(arena.bytes, ptr, size as int),
        forall|i: int| 0 <= i < size ==> load(arena.bytes, ptr, size as int)[i] != 0,
    ensures
        text_fault(arena, TypeModel::Array(Box::new(elem), count), ptr, size) == Some(
            FfiError::UnterminatedString,
        ),
{
    if terminated(arena.bytes, ptr, size) {
        let n = choose|n: int|
            0 <= n < size && crate::memory::readable(arena.bytes, ptr, n + 1) && #[trigger] load(
                arena.bytes,
                ptr,
                n + 1,
            )[n] == 0;
        assert(load(arena.bytes, ptr, n + 1)[n] == load(arena.bytes, ptr, size as int)[n]);
    }
}

/// The text of a value is found among the bytes that the value may hold
/// text in, and nowhere else: it is shorter than they are many.
pub proof fn lemma_text_within(bytes: Seq<u8>, addr: int, limit: nat)
    ensures
        crate::memory::text_length(bytes, addr, limit) <= limit,
        terminated(bytes, addr, limit) ==> crate::memory::text_length(bytes, addr, limit) < limit,
    decreases limit,
{
    if limit > 0 && crate::memory::readable(bytes, addr, 1) && load(bytes, addr, 1)[0] != 0 {
        lemma_text_within(bytes, addr + 1, (limit - 1) as nat);
        if terminated(bytes, addr, limit) {
            let n = choose|n: int|
                0 <= n < limit && crate::memory::readable(bytes, addr, n + 1) && #[trigger] load(
                    bytes,
                    addr,
                    n + 1,
                )[n] == 0;
            assert(load(bytes, addr, n + 1)[0] == load(bytes, addr, 1)[0]);
            assert(n > 0);
            let m = n - 1;
            assert(load(bytes, addr + 1, m + 1)[m] == load(bytes, addr, n + 1)[n]);
            assert(crate::memory::readable(bytes, addr + 1, m + 1));
            assert(terminated(bytes, addr + 1, (limit - 1) as nat));
        }
    }
}

/// The bytes of the text that a value holds: those from its address up to
/// the first zero byte.  An array is read no further than it is known to
/// reach, and a pointer no further than the storage that it points into.
///
/// Fails with `NullPointerAccess` for a null value, with `TypeMismatch`
/// for a value whose type holds no text, with `InvalidAddress` for an
/// address in no storage, and with `UnterminatedString` where no zero byte
/// stands within those bounds.
pub fn cdata_to_bytes(mem: &Memory, cdata: &CData) -> (r: Result<Vec<u8>, FfiError>)
    ensures
        match text_fault(mem.arena(), cdata.ctype@, cdata.ptr as int, cdata.size as nat) {
            Some(e) => r == Err::<Vec<u8>, FfiError>(e),
            None => r matches Ok(text) && text@ == text_of(
                mem.arena(),
                cdata.ctype@,
                cdata.ptr as int,
                cdata.size as nat,
            ),
        },
{
    if cdata.is_null() {
        return Err(FfiError::NullPointerAccess);
    }
    let limit = match underlying_type(&cdata.ctype) {
        CType::Array(inner, _) => {
            proof {
                reveal_with_fuel(crate::ctype::type_model, 2);
            }
            if !crate::marshal::is_char_type(inner) {
                return Err(FfiError::TypeMismatch);
            }
            cdata.size
        },
        CType::Ptr(inner) | CType::VLA(inner) => {
            proof {
                reveal_with_fuel(crate::ctype::type_model, 2);
            }
            if !crate::marshal::is_char_type(inner) {
                return Err(FfiError::TypeMismatch);
            }
            match mem.extent_rest(cdata.ptr) {
                Some(rest) => rest,
                None => {
                    return Err(FfiError::InvalidAddress);
                },
            }
        },
        _ => {
            proof {
                reveal_with_fuel(crate::ctype::type_model, 1);
            }
            return Err(FfiError::TypeMismatch);
        },
    };
    let n = match mem.text_len(cdata.ptr, limit) {
        Ok(n) => n,
        Err(e) => {
            return Err(e);
        },
    };
    mem.read(cdata.ptr, n)
}

/// The text that bytes spell, with a replacement character in place of
/// whatever is not UTF-8: what `String::from_utf8_lossy` gives.
pub uninterp spec fn utf8_lossy(bytes: Seq<u8>) -> Seq<char>;

/// Calls `String::from_utf8_lossy`, whose result depends on the bytes alone
/// and is given the name [`utf8_lossy`].  Bytes that are UTF-8 are decoded
/// as they are.
#[verifier::external_body]
fn from_utf8_lossy(bytes: &Vec<u8>) -> (s: String)
    ensures
        s@ == utf8_lossy(bytes@),
        vstd::utf8::valid_utf8(bytes@) ==> s@ == vstd::utf8::decode_utf8(bytes@),
{
    String::from_utf8_lossy(bytes).into_owned()
}

/// The text that a value holds, as a string: the bytes that
/// [`cdata_to_bytes`] gives, decoded as UTF-8 with a replacement character
/// in place of whatever is not; bytes that are UTF-8 are decoded as they
/// are.  Fails as [`cdata_to_bytes`] does.
pub fn cdata_to_string(mem: &Memory, cdata: &CData) -> (r: Result<String, FfiError>)
    ensures
        match text_fault(mem.arena(), cdata.ctype@, cdata.ptr as int, cdata.size as nat) {
            Some(e) => r matches Err(f) && f == e,
            None => {
                let text = text_of(mem.arena(), cdata.ctype@, cdata.ptr as int, cdata.size as nat);
                &&& r matches Ok(s)
                &&& s@ == utf8_lossy(text)
                &&& vstd::utf8::valid_utf8(text) ==> s@ == vstd::utf8::decode_utf8(text)
            },
        },
{
    match cdata_to_bytes(mem, cdata) {
        Ok(bytes) => Ok(from_utf8_lossy(&bytes)),
        Err(e) => Err(e),
    }
}

/// What copying into a value does to the bytes of the memory, and what
/// comes of it: the number of bytes that were copied, or an error.
///
/// From a text, `len` bytes are copied, or the whole text where no length
/// is given; in that case a zero byte is put after the text where the
/// value has room for it.  From another value, by its handle, `len` bytes
/// are copied, and the length must be given.  Nothing else can be copied
/// from.  No more bytes are copied than the value is known to hold, nor
/// more than the source has.
pub open spec fn copied(
    bytes: Seq<u8>,
    dst_ptr: int,
    dst_size: nat,
    src: HostValue,
    len: Option<usize>,
) -> (Seq<u8>, Result<usize, FfiError>) {
    match src {
        HostValue::Text(text) => {
            let n: nat = match len {
                Some(n) => n as nat,
                None => text@.len(),
            };
            if n > dst_size {
                (
                    bytes,
                    Err(
                        FfiError::BufferOverflow {
                            requested: n as usize,
                            capacity: dst_size as usize,
                        },
                    ),
                )
            } else if n > text@.len() {
                (
                    bytes,
                    Err(
                        FfiError::BufferTooSmall {
                            available: text@.len() as usize,
                            needed: n as usize,
                        },
                    ),
                )
            } else {
                let data = if len is None && n < dst_size {
                    text@ + seq![0u8]
                } else {
                    text@.take(n as int)
                };
                match store(bytes, dst_ptr, data).1 {
                    Ok(_) => (store(bytes, dst_ptr, data).0, Ok(n as usize)),
                    Err(e) => (bytes, Err(e)),
                }
            }
        },
        HostValue::Handle(src_ptr) => match len {
            None => (bytes, Err(FfiError::LengthRequired)),
            Some(n) => if n > dst_size {
                (
                    bytes,
                    Err(FfiError::BufferOverflow { requested: n, capacity: dst_size as usize }),
                )
            } else {
                match fault(bytes, src_ptr as int, n as int) {
                    Some(e) => (bytes, Err(e)),
                    None => match store(bytes, dst_ptr, load(bytes, src_ptr as int, n as int)).1 {
                        Ok(_) => (
                            store(bytes, dst_ptr, load(bytes, src_ptr as int, n as int)).0,
                            Ok(n),
                        ),
                        Err(e) => (bytes, Err(e)),
                    },
                }
            },
        },
        _ => (bytes, Err(FfiError::TypeMismatch)),
    }
}

/// Copies bytes into a value: see [`copied`].  On an error the memory is
/// as it was.
pub fn copy_memory(mem: &mut Memory, dst: &CData, src: &HostValue, len: Option<usize>) -> (r:
    Result<usize, FfiError>)
    ensures
        final(mem).live() == old(mem).live(),
        final(mem).extents() == old(mem).extents(),
        old(mem).well_formed() ==> final(mem).well_formed(),
        (final(mem)@, r) == copied(old(mem)@, dst.ptr as int, dst.size as nat, *src, len),
        r is Err ==> final(mem)@ == old(mem)@,
{
    match src {
        HostValue::Text(text) => {
            let n = match len {
                Some(n) => n,
                None => text.len(),
            };
            if n > dst.size {
                return Err(FfiError::BufferOverflow { requested: n, capacity: dst.size });
            }
            if n > text.len() {
                return Err(FfiError::BufferTooSmall { available: text.len(), needed: n });
            }
            let mut data: Vec<u8> = Vec::new();
            let mut i: usize = 0;
            while i < n
                invariant
                    i <= n <= text@.len(),
                    data@ == text@.take(i as int),
                decreases n - i,
            {
                data.push(text[i]);
                i += 1;
                assert(data@ =~= text@.take(i as int));
            }
            if len.is_none() && n < dst.size {
                assert(text@.take(n as int) =~= text@);
                data.push(0);
            }
            match mem.write(dst.ptr, &data) {
                Ok(_) => Ok(n),
                Err(e) => Err(e),
            }
        },
        HostValue::Handle(src_ptr) => {
            let n = match len {
                Some(n) => n,
                None => {
                    return Err(FfiError::LengthRequired);
                },
            };
            if n > dst.size {
                return Err(FfiError::BufferOverflow { requested: n, capacity: dst.size });
            }
            let data = match mem.read(*src_ptr, n) {
                Ok(data) => data,
                Err(e) => {
                    return Err(e);
                },
            };
            match mem.write(dst.ptr, &data) {
                Ok(_) => Ok(n),
                Err(e) => Err(e),
            }
        },
        _ => Err(FfiError::TypeMismatch),
    }
}

/// Sets the first `len` bytes of a value to `value`.
///
/// Fails with `BufferOverflow` where the value is not known to hold that
/// many bytes, and as the memory says where the bytes cannot be reached.
/// On an error the memory is as it was.
pub fn fill_memory(mem: &mut Memory, cdata: &CData, len: usize, value: u8) -> (r: Result<
    (),
    FfiError,
>)
    ensures
        final(mem).live() == old(mem).live(),
        final(mem).extents() == old(mem).extents(),
        old(mem).well_formed() ==> final(mem).well_formed(),
        (final(mem)@, r) == if len > cdata.size {
            (
                old(mem)@,
                Err::<(), FfiError>(
                    FfiError::BufferOverflow { requested: len, capacity: cdata.size },
                ),
            )
        } else {
            store(old(mem)@, cdata.ptr as int, Seq::new(len as nat, |i: int| value))
        },
        r is Err ==> final(mem)@ == old(mem)@,
{
    if len > cdata.size {
        return Err(FfiError::BufferOverflow { requested: len, capacity: cdata.size });
    }
    mem.fill(cdata.ptr, len, value)
}

} // verus!
