//! The reader of declarations.
//!
//! A text of declarations is read from its start, one declaration after the
//! other.  A struct definition registers its struct; a typedef and anything
//! else up to the next `;` or line end is recognised and passed over.

use crate::ctype::calculate_field_offsets;
use crate::ctype::CField;
use crate::ctype::CType;
use crate::ctype::field_models;
use crate::ctype::FieldModel;
use crate::ctype::laid_out;
use crate::ctype::layout_representable;
use crate::ctype::Scalar;
use crate::ctype::TypeModel;
use crate::error::FfiError;
use crate::ffi_ops::register_type;
use crate::ffi_ops::resolve;
use crate::ffi_ops::resolve_range;
use crate::ffi_ops::TypeRegistry;
use crate::text::digits_value;
use crate::text::is_word_char;
use crate::text::parse_usize;
use crate::text::skip_whitespace_back;
use crate::text::to_chars;
use crate::text::to_string;
use crate::text::trim_end;
use crate::text::word_char;
use vstd::prelude::*;

verus! {

/// The kinds of character that a run is made of.
#[derive(Clone, Copy, Debug, PartialEq, Eq, Structural)]
pub enum CharClass {
    /// A space, a tab, a carriage return or a line feed.
    Blank,
    /// A character of a word: a letter, a number or `_`.
    Word,
    /// A decimal digit.
    Digit,
    /// Anything but `;`.
    UpToSemicolon,
    /// Anything but `;` and a line feed.
    UpToLineEnd,
}

/// Whether the character is of the class.
pub open spec fn in_class(c: char, class: CharClass) -> bool {
    match class {
        CharClass::Blank => c == ' ' || c == '\t' || c == '\r' || c == '\n',
        CharClass::Word => word_char(c),
        CharClass::Digit => '0' <= c <= '9',
        CharClass::UpToSemicolon => c != ';',
        CharClass::UpToLineEnd => c != ';' && c != '\n',
    }
}

/// Where the run of characters of the class that starts at `i` ends.
pub open spec fn run_end(s: Seq<char>, i: int, class: CharClass) -> int
    decreases s.len() - i,
{
    if 0 <= i < s.len() && in_class(s[i], class) {
        run_end(s, i + 1, class)
    } else {
        i
    }
}

/// A run ends at or after its start, within the text.
pub proof fn lemma_run_end(s: Seq<char>, i: int, class: CharClass)
    requires
        0 <= i <= s.len(),
    ensures
        i <= run_end(s, i, class) <= s.len(),
    decreases s.len() - i,
{
    if i < s.len() && in_class(s[i], class) {
        lemma_run_end(s, i + 1, class);
    }
}

/// Whether `c` stands at `i`.
pub open spec fn char_at(s: Seq<char>, i: int, c: char) -> bool {
    0 <= i < s.len() && s[i] == c
}

/// Whether `word` stands at `i`.
pub open spec fn word_at(s: Seq<char>, i: int, word: Seq<char>) -> bool {
    0 <= i && i + word.len() <= s.len() && s.subrange(i, i + word.len()) == word
}

/// The type that a field's type name stands for: what the name resolves
/// to, or, where it resolves to nothing, another name for `int` that goes
/// by that name.
pub open spec fn field_type(registry: Map<Seq<char>, TypeModel>, name: Seq<char>) -> TypeModel {
    match resolve(registry, name) {
        Ok(t) => t,
        Err(_) => TypeModel::Typedef(name, Box::new(TypeModel::Scalar(Scalar::Int))),
    }
}

/// The count of an array suffix `[digits]` at `i`, with the place after it,
/// where one stands there whose count a `usize` holds.
pub open spec fn array_size_at(s: Seq<char>, i: int) -> Option<(nat, int)> {
    let d = run_end(s, i + 1, CharClass::Digit);
    if char_at(s, i, '[') && d > i + 1 && char_at(s, d, ']') {
        match digits_value(s.subrange(i + 1, d)) {
            Some(n) => if n <= usize::MAX {
                Some((n, d + 1))
            } else {
                None
            },
            None => None,
        }
    } else {
        None
    }
}

/// The field that stands at `i`, with the place after it: blanks, the name
/// of a type, at least one blank, the name of the field, an array suffix or
/// none, blanks.  The field's offset is zero.
pub open spec fn field_at(registry: Map<Seq<char>, TypeModel>, s: Seq<char>, i: int) -> Option<
    (FieldModel, int),
> {
    let a = run_end(s, i, CharClass::Blank);
    let b = run_end(s, a, CharClass::Word);
    let c = run_end(s, b, CharClass::Blank);
    let d = run_end(s, c, CharClass::Word);
    if b == a || c == b || d == c {
        None
    } else {
        let base = field_type(registry, s.subrange(a, b));
        let (ctype, e) = match array_size_at(s, d) {
            Some((n, e)) => (TypeModel::Array(Box::new(base), n), e),
            None => (base, d),
        };
        Some(
            (
                FieldModel { name: s.subrange(c, d), ctype, offset: 0 },
                run_end(s, e, CharClass::Blank),
            ),
        )
    }
}

/// The fields that stand from `i` on, each followed by `;`, up to the `}`
/// that ends them, with the place of that `}`.
pub open spec fn fields_at(registry: Map<Seq<char>, TypeModel>, s: Seq<char>, i: int) -> Option<
    (Seq<FieldModel>, int),
>
    decreases s.len() - i,
{
    let a = run_end(s, i, CharClass::Blank);
    if i < 0 || i > s.len() {
        None
    } else if char_at(s, a, '}') {
        Some((Seq::empty(), a))
    } else {
        match field_at(registry, s, a) {
            Some((field, j)) => if char_at(s, j, ';') {
                proof {
                    lemma_run_end(s, i, CharClass::Blank);
                    lemma_field_at(registry, s, a);
                }
                match fields_at(registry, s, j + 1) {
                    Some((rest, k)) => Some((seq![field] + rest, k)),
                    None => None,
                }
            } else {
                None
            },
            None => None,
        }
    }
}

/// A field ends after its start, within the text.
pub proof fn lemma_field_at(registry: Map<Seq<char>, TypeModel>, s: Seq<char>, i: int)
    requires
        0 <= i <= s.len(),
    ensures
        field_at(registry, s, i) matches Some((_, j)) ==> i < j <= s.len(),
{
    let a = run_end(s, i, CharClass::Blank);
    lemma_run_end(s, i, CharClass::Blank);
    let b = run_end(s, a, CharClass::Word);
    lemma_run_end(s, a, CharClass::Word);
    let c = run_end(s, b, CharClass::Blank);
    lemma_run_end(s, b, CharClass::Blank);
    let d = run_end(s, c, CharClass::Word);
    lemma_run_end(s, c, CharClass::Word);
    if d < s.len() {
        lemma_run_end(s, d + 1, CharClass::Digit);
        let g = run_end(s, d + 1, CharClass::Digit);
        if g < s.len() {
            lemma_run_end(s, g + 1, CharClass::Blank);
        }
    }
    lemma_run_end(s, d, CharClass::Blank);
}

/// The `}` that ends the fields stands at or after their start, within the
/// text.
pub proof fn lemma_fields_at(registry: Map<Seq<char>, TypeModel>, s: Seq<char>, i: int)
    requires
        0 <= i <= s.len(),
    ensures
        fields_at(registry, s, i) matches Some((_, k)) ==> i <= k < s.len(),
    decreases s.len() - i,
{
    let a = run_end(s, i, CharClass::Blank);
    lemma_run_end(s, i, CharClass::Blank);
    if !char_at(s, a, '}') {
        lemma_field_at(registry, s, a);
        match field_at(registry, s, a) {
            Some((_, j)) => {
                if char_at(s, j, ';') {
                    lemma_fields_at(registry, s, j + 1);
                }
            },
            None => {},
        }
    }
}

/// Whether a struct definition starts at `q`: `struct`, at least one blank,
/// a name, blanks, `{`.  Gives the name's start and end and the place after
/// the `{`.
pub open spec fn struct_head_at(s: Seq<char>, q: int) -> Option<(int, int, int)> {
    let a = q + "struct"@.len();
    let b = run_end(s, a, CharClass::Blank);
    let c = run_end(s, b, CharClass::Word);
    let d = run_end(s, c, CharClass::Blank);
    if word_at(s, q, "struct"@) && b > a && c > b && char_at(s, d, '{') {
        Some((b, c, d + 1))
    } else {
        None
    }
}

/// The struct that is defined at `q`, with the place after the definition:
/// the head, the fields, `}`, blanks, `;`, blanks.  The fields have the
/// offsets that the layout gives them.
pub open spec fn struct_at(registry: Map<Seq<char>, TypeModel>, s: Seq<char>, q: int) -> Option<
    (Seq<char>, TypeModel, int),
> {
    match struct_head_at(s, q) {
        Some((b, c, body)) => match fields_at(registry, s, body) {
            Some((fields, k)) => {
                let m = run_end(s, k + 1, CharClass::Blank);
                if char_at(s, m, ';') && layout_representable(fields) {
                    Some(
                        (
                            s.subrange(b, c),
                            TypeModel::Struct(s.subrange(b, c), laid_out(fields)),
                            run_end(s, m + 1, CharClass::Blank),
                        ),
                    )
                } else {
                    None
                }
            },
            None => None,
        },
        None => None,
    }
}

/// The place after the typedef at `q`, where one stands there: `typedef`,
/// at least one blank, anything up to a `;`, and that `;`.
pub open spec fn typedef_at(s: Seq<char>, q: int) -> Option<int> {
    let a = q + "typedef"@.len();
    let b = run_end(s, a, CharClass::Blank);
    let c = run_end(s, b, CharClass::UpToSemicolon);
    if word_at(s, q, "typedef"@) && b > a && char_at(s, c, ';') {
        Some(c + 1)
    } else {
        None
    }
}

/// The place after whatever else stands at `q`: at least one character up
/// to a `;` or a line end, the `;` if one stands there, and blanks.
pub open spec fn function_at(s: Seq<char>, q: int) -> Option<int> {
    let a = run_end(s, q, CharClass::UpToLineEnd);
    if a > q {
        if char_at(s, a, ';') {
            Some(run_end(s, a + 1, CharClass::Blank))
        } else {
            Some(run_end(s, a, CharClass::Blank))
        }
    } else {
        None
    }
}

/// The error for declarations that stop being recognised at `q`: the span
/// from there to the end of the text, without the white space at its end.
pub open spec fn parse_error(s: Seq<char>, q: int) -> FfiError {
    FfiError::ParseError { offset: q as usize, length: trim_end(s.skip(q)).len() as usize }
}

/// What reading the declarations from `p` on does to the registry, and how
/// it ends.
///
/// After blanks, the text is at its end, and the reading succeeds; or a
/// struct definition starts, which must be complete and is then registered
/// under its name; or a typedef or something else is passed over.  Where
/// the text goes on in no such way the reading stops with a parse error,
/// and what was registered up to there stays registered.
pub open spec fn declarations(registry: Map<Seq<char>, TypeModel>, s: Seq<char>, p: int) -> (
    Map<Seq<char>, TypeModel>,
    Result<(), FfiError>,
)
    decreases s.len() - p,
{
    let q = run_end(s, p, CharClass::Blank);
    if p < 0 || q >= s.len() {
        (registry, Ok(()))
    } else {
        proof {
            lemma_run_end(s, p, CharClass::Blank);
            lemma_declaration_at(registry, s, q);
        }
        if struct_head_at(s, q) is Some {
            match struct_at(registry, s, q) {
                Some((name, model, next)) => declarations(registry.insert(name, model), s, next),
                None => (registry, Err(parse_error(s, q))),
            }
        } else {
            match typedef_at(s, q) {
                Some(next) => declarations(registry, s, next),
                None => match function_at(s, q) {
                    Some(next) => declarations(registry, s, next),
                    None => (registry, Err(parse_error(s, q))),
                },
            }
        }
    }
}

/// A declaration ends after its start, within the text.
pub proof fn lemma_declaration_at(registry: Map<Seq<char>, TypeModel>, s: Seq<char>, q: int)
    requires
        0 <= q < s.len(),
    ensures
        struct_at(registry, s, q) matches Some((_, _, next)) ==> q < next <= s.len(),
        typedef_at(s, q) matches Some(next) ==> q < next <= s.len(),
        function_at(s, q) matches Some(next) ==> q < next <= s.len(),
{
    match struct_head_at(s, q) {
        Some((b, c, body)) => {
            let a = q + "struct"@.len();
            lemma_run_end(s, a, CharClass::Blank);
            lemma_run_end(s, b, CharClass::Word);
            lemma_run_end(s, c, CharClass::Blank);
            lemma_fields_at(registry, s, body);
            match fields_at(registry, s, body) {
                Some((_, k)) => {
                    lemma_run_end(s, k + 1, CharClass::Blank);
                    let m = run_end(s, k + 1, CharClass::Blank);
                    if m < s.len() {
                        lemma_run_end(s, m + 1, CharClass::Blank);
                    }
                },
                None => {},
            }
        },
        None => {},
    }
    if word_at(s, q, "typedef"@) {
        let a = q + "typedef"@.len();
        lemma_run_end(s, a, CharClass::Blank);
        lemma_run_end(s, run_end(s, a, CharClass::Blank), CharClass::UpToSemicolon);
    }
    lemma_run_end(s, q, CharClass::UpToLineEnd);
    let a = run_end(s, q, CharClass::UpToLineEnd);
    lemma_run_end(s, a, CharClass::Blank);
    if a < s.len() {
        lemma_run_end(s, a + 1, CharClass::Blank);
    }
}

/// Whether the character is of the class.
fn class_holds(c: char, class: CharClass) -> (b: bool)
    ensures
        b == in_class(c, class),
{
    match class {
        CharClass::Blank => c == ' ' || c == '\t' || c == '\r' || c == '\n',
        CharClass::Word => is_word_char(c),
        CharClass::Digit => c >= '0' && c <= '9',
        CharClass::UpToSemicolon => c != ';',
        CharClass::UpToLineEnd => c != ';' && c != '\n',
    }
}

/// Where the run of characters of the class that starts at `i` ends.
fn scan(chars: &Vec<char>, i: usize, class: CharClass) -> (e: usize)
    requires
        i <= chars@.len(),
    ensures
        e == run_end(chars@, i as int, class),
        i <= e <= chars@.len(),
{
    let mut e: usize = i;
    while e < chars.len() && class_holds(chars[e], class)
        invariant
            i <= e <= chars@.len(),
            run_end(chars@, e as int, class) == run_end(chars@, i as int, class),
        decreases chars.len() - e,
    {
        e += 1;
    }
    e
}

/// Whether `c` stands at `i`.
fn holds(chars: &Vec<char>, i: usize, c: char) -> (b: bool)
    ensures
        b == char_at(chars@, i as int, c),
{
    i < chars.len() && chars[i] == c
}

/// Whether `word` stands at `i`.
fn holds_word(chars: &Vec<char>, i: usize, word: &str) -> (b: bool)
    requires
        i <= chars@.len(),
    ensures
        b == word_at(chars@, i as int, word@),
{
    let text = to_chars(word);
    if text.len() > chars.len() - i {
        return false;
    }
    crate::text::equals(chars, i, i + text.len(), &text)
}

/// Where the name that starts at `i` ends: the run of letters, numbers and
/// `_`.
fn identifier(chars: &Vec<char>, i: usize) -> (e: usize)
    requires
        i <= chars@.len(),
    ensures
        e == run_end(chars@, i as int, CharClass::Word),
        i <= e <= chars@.len(),
{
    scan(chars, i, CharClass::Word)
}

/// The type that the field's type name in the part stands for.
fn parse_type(registry: &TypeRegistry, chars: &Vec<char>, start: usize, end: usize) -> (t: CType)
    requires
        start <= end <= chars@.len(),
    ensures
        t@ == field_type(registry@, chars@.subrange(start as int, end as int)),
{
    match resolve_range(registry, chars, start, end) {
        Ok(t) => t,
        Err(_) => {
            let t = CType::Typedef(to_string(chars, start, end), Box::new(CType::Int));
            proof {
                reveal_with_fuel(crate::ctype::type_model, 2);
            }
            t
        },
    }
}

/// The count of the array suffix at `i`, with the place after it.
fn parse_array_size(chars: &Vec<char>, i: usize) -> (r: Option<(usize, usize)>)
    requires
        i <= chars@.len(),
    ensures
        match r {
            Some((n, e)) => array_size_at(chars@, i as int) == Some((n as nat, e as int)) && i < e
                <= chars@.len(),
            None => array_size_at(chars@, i as int) is None,
        },
{
    let limit = chars.len();
    if !holds(chars, i, '[') {
        return None;
    }
    let d = scan(chars, i + 1, CharClass::Digit);
    if d == i + 1 || !holds(chars, d, ']') {
        return None;
    }
    proof {
        lemma_digits(chars@, i + 1, d as int);
    }
    match parse_usize(chars, i + 1, d) {
        Some(n) => Some((n, d + 1)),
        None => None,
    }
}

/// A run of digits spells a number, and spells it without a sign.
proof fn lemma_digits(s: Seq<char>, i: int, d: int)
    requires
        0 <= i < d <= s.len(),
        d == run_end(s, i, CharClass::Digit),
    ensures
        digits_value(s.subrange(i, d)) is Some,
        crate::text::parse_decimal(s.subrange(i, d)) == digits_value(s.subrange(i, d)),
{
    lemma_digit_run(s, i, d);
    assert(s.subrange(i, d)[0] == s[i]);
    lemma_all_digits(s.subrange(i, d));
}

/// Every character of a run of digits is a digit.
proof fn lemma_digit_run(s: Seq<char>, i: int, d: int)
    requires
        0 <= i <= d <= s.len(),
        d == run_end(s, i, CharClass::Digit),
    ensures
        forall|j: int| i <= j < d ==> '0' <= #[trigger] s[j] <= '9',
    decreases d - i,
{
    if i < d {
        lemma_digit_run(s, i + 1, d);
    }
}

/// A text of digits spells a number.
proof fn lemma_all_digits(s: Seq<char>)
    requires
        forall|j: int| 0 <= j < s.len() ==> '0' <= #[trigger] s[j] <= '9',
    ensures
        digits_value(s) is Some,
    decreases s.len(),
{
    if s.len() > 0 {
        lemma_all_digits(s.drop_last());
    }
}

/// The field that stands at `i`, with the place after it.
fn parse_field(registry: &TypeRegistry, chars: &Vec<char>, i: usize) -> (r: Option<
    (CField, usize),
>)
    requires
        i <= chars@.len(),
    ensures
        match r {
            Some((field, e)) => field_at(registry@, chars@, i as int) == Some((field@, e as int))
                && i < e <= chars@.len(),
            None => field_at(registry@, chars@, i as int) is None,
        },
{
    let a = scan(chars, i, CharClass::Blank);
    let b = identifier(chars, a);
    let c = scan(chars, b, CharClass::Blank);
    let d = identifier(chars, c);
    if b == a || c == b || d == c {
        return None;
    }
    let base = parse_type(registry, chars, a, b);
    let name = to_string(chars, c, d);
    let (ctype, e) = match parse_array_size(chars, d) {
        Some((n, e)) => {
            proof {
                reveal_with_fuel(crate::ctype::type_model, 2);
            }
            (CType::Array(Box::new(base), n), e)
        },
        None => (base, d),
    };
    let f = scan(chars, e, CharClass::Blank);
    Some((CField { name, ctype, offset: 0 }, f))
}

/// The fields that stand from `i` on, with the place of the `}` that ends
/// them.
fn parse_struct_fields(registry: &TypeRegistry, chars: &Vec<char>, i: usize) -> (r: Option<
    (Vec<CField>, usize),
>)
    requires
        i <= chars@.len(),
    ensures
        match r {
            Some((fields, k)) => fields_at(registry@, chars@, i as int) == Some(
                (field_models(fields@), k as int),
            ) && i <= k < chars@.len(),
            None => fields_at(registry@, chars@, i as int) is None,
        },
{
    let limit = chars.len();
    let mut fields: Vec<CField> = Vec::new();
    let mut at: usize = i;
    loop
        invariant
            i <= at <= chars@.len(),
            limit == chars@.len(),
            match fields_at(registry@, chars@, at as int) {
                Some((rest, k)) => fields_at(registry@, chars@, i as int) == Some(
                    (field_models(fields@) + rest, k),
                ),
                None => fields_at(registry@, chars@, i as int) is None,
            },
        decreases chars@.len() - at,
    {
        let a = scan(chars, at, CharClass::Blank);
        if holds(chars, a, '}') {
            assert(field_models(fields@) + Seq::<FieldModel>::empty() =~= field_models(fields@));
            return Some((fields, a));
        }
        let (field, j) = match parse_field(registry, chars, a) {
            Some(found) => found,
            None => {
                return None;
            },
        };
        if !holds(chars, j, ';') {
            return None;
        }
        let ghost before = field_models(fields@);
        let ghost model = field@;
        fields.push(field);
        proof {
            assert(field_models(fields@) =~= before + seq![model]);
            match fields_at(registry@, chars@, j + 1) {
                Some((rest, k)) => {
                    assert(before + (seq![model] + rest) =~= field_models(fields@) + rest);
                },
                None => {},
            }
        }
        at = j + 1;
    }
}

/// The struct that is defined at `q`, with the place after the definition.
fn parse_struct(registry: &TypeRegistry, chars: &Vec<char>, q: usize) -> (r: Option<
    (String, CType, usize),
>)
    requires
        q <= chars@.len(),
        struct_head_at(chars@, q as int) is Some,
    ensures
        match r {
            Some((name, ctype, next)) => struct_at(registry@, chars@, q as int) == Some(
                (name@, ctype@, next as int),
            ) && q < next <= chars@.len(),
            None => struct_at(registry@, chars@, q as int) is None,
        },
{
    let limit = chars.len();
    let word = to_chars("struct");
    let a = q + word.len();
    let b = scan(chars, a, CharClass::Blank);
    let c = identifier(chars, b);
    let d = scan(chars, c, CharClass::Blank);
    let (mut fields, k) = match parse_struct_fields(registry, chars, d + 1) {
        Some(found) => found,
        None => {
            return None;
        },
    };
    let m = scan(chars, k + 1, CharClass::Blank);
    if !holds(chars, m, ';') {
        return None;
    }
    if !calculate_field_offsets(&mut fields) {
        return None;
    }
    let next = scan(chars, m + 1, CharClass::Blank);
    let ctype = CType::Struct(to_string(chars, b, c), fields);
    proof {
        crate::ctype::lemma_aggregate_models(ctype);
    }
    Some((to_string(chars, b, c), ctype, next))
}

/// Whether a struct definition starts at `q`.
fn struct_head(chars: &Vec<char>, q: usize) -> (b: bool)
    requires
        q <= chars@.len(),
    ensures
        b == struct_head_at(chars@, q as int) is Some,
{
    let limit = chars.len();
    if !holds_word(chars, q, "struct") {
        return false;
    }
    let word = to_chars("struct");
    let a = q + word.len();
    let b = scan(chars, a, CharClass::Blank);
    let c = identifier(chars, b);
    let d = scan(chars, c, CharClass::Blank);
    b > a && c > b && holds(chars, d, '{')
}

/// The place after the typedef at `q`, where one stands there.
fn parse_typedef(chars: &Vec<char>, q: usize) -> (r: Option<usize>)
    requires
        q <= chars@.len(),
    ensures
        r matches Some(next) ==> typedef_at(chars@, q as int) == Some(next as int) && q < next
            <= chars@.len(),
        r is None ==> typedef_at(chars@, q as int) is None,
{
    let limit = chars.len();
    if !holds_word(chars, q, "typedef") {
        return None;
    }
    let word = to_chars("typedef");
    let a = q + word.len();
    let b = scan(chars, a, CharClass::Blank);
    let c = scan(chars, b, CharClass::UpToSemicolon);
    if b > a && holds(chars, c, ';') {
        Some(c + 1)
    } else {
        None
    }
}

/// The place after whatever else stands at `q`.
fn parse_function(chars: &Vec<char>, q: usize) -> (r: Option<usize>)
    requires
        q <= chars@.len(),
    ensures
        r matches Some(next) ==> function_at(chars@, q as int) == Some(next as int) && q < next
            <= chars@.len(),
        r is None ==> function_at(chars@, q as int) is None,
{
    let limit = chars.len();
    let a = scan(chars, q, CharClass::UpToLineEnd);
    if a == q {
        return None;
    }
    if holds(chars, a, ';') {
        Some(scan(chars, a + 1, CharClass::Blank))
    } else {
        Some(scan(chars, a, CharClass::Blank))
    }
}

/// The error for declarations that stop being recognised at `q`.
fn error_at(chars: &Vec<char>, q: usize) -> (e: FfiError)
    requires
        q <= chars@.len(),
    ensures
        e == parse_error(chars@, q as int),
{
    let end = skip_whitespace_back(chars, q, chars.len());
    assert(chars@.skip(q as int) =~= chars@.subrange(q as int, chars@.len() as int));
    FfiError::ParseError { offset: q, length: end - q }
}

/// Reads the declaration at `q`, which is not a blank: registers the struct
/// that it defines, if it defines one, and gives the place after it.
fn parse_declaration(registry: &mut TypeRegistry, chars: &Vec<char>, q: usize) -> (r: Result<
    usize,
    FfiError,
>)
    requires
        q < chars@.len(),
        q == run_end(chars@, q as int, CharClass::Blank),
    ensures
        match r {
            Ok(next) => q < next <= chars@.len() && declarations(
                old(registry)@,
                chars@,
                q as int,
            ) == declarations(final(registry)@, chars@, next as int),
            Err(e) => final(registry)@ == old(registry)@ && declarations(
                old(registry)@,
                chars@,
                q as int,
            ) == (old(registry)@, Err::<(), FfiError>(e)),
        },
{
    if struct_head(chars, q) {
        match parse_struct(registry, chars, q) {
            Some((name, ctype, next)) => {
                register_type(registry, name, ctype);
                Ok(next)
            },
            None => Err(error_at(chars, q)),
        }
    } else {
        match parse_typedef(chars, q) {
            Some(next) => Ok(next),
            None => match parse_function(chars, q) {
                Some(next) => Ok(next),
                None => Err(error_at(chars, q)),
            },
        }
    }
}

/// Reads declarations and registers the structs that they define.
///
/// The registry ends as [`declarations`] says, and so does the reading:
/// with success at the end of the text, or with a `ParseError` that names
/// the place where the declarations stop being recognised.  A struct
/// definition that is not complete is such a place; the structs defined
/// before it stay registered.
pub fn parse_cdef(registry: &mut TypeRegistry, code: &str) -> (r: Result<(), FfiError>)
    ensures
        (final(registry)@, r) == declarations(old(registry)@, code@, 0),
{
    let chars = to_chars(code);
    let mut p: usize = 0;
    loop
        invariant
            p <= chars@.len(),
            chars@ == code@,
            declarations(old(registry)@, code@, 0) == declarations(registry@, chars@, p as int),
        decreases chars@.len() - p,
    {
        let q = scan(&chars, p, CharClass::Blank);
        if q >= chars.len() {
            return Ok(());
        }
        proof {
            lemma_run_end_idempotent(chars@, p as int, CharClass::Blank);
        }
        match parse_declaration(registry, &chars, q) {
            Ok(next) => {
                p = next;
            },
            Err(e) => {
                return Err(e);
            },
        }
    }
}

/// Where a run ends, the run that starts there is empty.
pub proof fn lemma_run_end_idempotent(s: Seq<char>, i: int, class: CharClass)
    requires
        0 <= i <= s.len(),
    ensures
        run_end(s, run_end(s, i, class), class) == run_end(s, i, class),
    decreases s.len() - i,
{
    if i < s.len() && in_class(s[i], class) {
        lemma_run_end_idempotent(s, i + 1, class);
    }
}

} // verus!
