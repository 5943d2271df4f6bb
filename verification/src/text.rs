//! Text as a sequence of characters: the tests and searches that the
//! resolution of type names and the reading of declarations are made of.
//!
//! The executable functions work on a part of a vector of characters, from
//! `start` up to `end`; their contracts speak of that part as a sequence.

use vstd::prelude::*;

verus! {

/// Whether the character is white space: one of the characters to which
/// Unicode gives the property White_Space.
pub open spec fn whitespace(c: char) -> bool {
    let n = c as u32;
    ||| 0x0009 <= n <= 0x000D
    ||| n == 0x0020
    ||| n == 0x0085
    ||| n == 0x00A0
    ||| n == 0x1680
    ||| 0x2000 <= n <= 0x200A
    ||| n == 0x2028
    ||| n == 0x2029
    ||| n == 0x202F
    ||| n == 0x205F
    ||| n == 0x3000
}

/// Whether Unicode counts the character as a letter or a number: what
/// `char::is_alphanumeric` answers.
pub uninterp spec fn alphanumeric(c: char) -> bool;

/// Calls `char::is_whitespace`, which is documented to tell whether the
/// character has the property White_Space of Unicode.  The contract takes
/// on trust that these are the characters that [`whitespace`] lists.
#[verifier::external_body]
pub(crate) fn is_whitespace(c: char) -> (b: bool)
    ensures
        b == whitespace(c),
{
    c.is_whitespace()
}

/// Calls `char::is_alphanumeric`, whose answer depends on the character
/// alone and is given the name [`alphanumeric`].
#[verifier::external_body]
pub(crate) fn is_alphanumeric(c: char) -> (b: bool)
    ensures
        b == alphanumeric(c),
{
    c.is_alphanumeric()
}

/// Calls `String::push`, which appends the character to the string.
#[verifier::external_body]
pub(crate) fn push_char(s: &mut String, c: char)
    ensures
        final(s)@ == old(s)@.push(c),
{
    s.push(c)
}

/// Whether the character may stand in a word: a letter, a digit or `_` of
/// ASCII, or, beyond ASCII, what Unicode counts as a letter or a number.
pub open spec fn word_char(c: char) -> bool {
    if (c as u32) < 128 {
        ('a' <= c <= 'z') || ('A' <= c <= 'Z') || ('0' <= c <= '9') || c == '_'
    } else {
        alphanumeric(c)
    }
}

/// Whether the character may stand in a word.
pub fn is_word_char(c: char) -> (b: bool)
    ensures
        b == word_char(c),
{
    if (c as u32) < 128 {
        (c >= 'a' && c <= 'z') || (c >= 'A' && c <= 'Z') || (c >= '0' && c <= '9') || c == '_'
    } else {
        is_alphanumeric(c)
    }
}

/// The characters of a string, in a vector.
pub fn to_chars(s: &str) -> (v: Vec<char>)
    ensures
        v@ == s@,
{
    let mut v: Vec<char> = Vec::new();
    for c in it: s.chars()
        invariant
            it.seq() == s@,
            v@ == s@.take(it.index() as int),
    {
        v.push(c);
        assert(v@ =~= s@.take(it.index() + 1));
    }
    assert(s@.take(s@.len() as int) =~= s@);
    v
}

/// A string of the characters from `start` up to `end`.
pub fn to_string(chars: &Vec<char>, start: usize, end: usize) -> (s: String)
    requires
        start <= end <= chars@.len(),
    ensures
        s@ == chars@.subrange(start as int, end as int),
{
    let mut s = String::new();
    let mut i: usize = start;
    while i < end
        invariant
            start <= i <= end <= chars@.len(),
            s@ == chars@.subrange(start as int, i as int),
        decreases end - i,
    {
        push_char(&mut s, chars[i]);
        i += 1;
        assert(s@ =~= chars@.subrange(start as int, i as int));
    }
    s
}

/// The text without the white space at its start.
pub open spec fn trim_start(s: Seq<char>) -> Seq<char>
    decreases s.len(),
{
    if s.len() > 0 && whitespace(s[0]) {
        trim_start(s.drop_first())
    } else {
        s
    }
}

/// The text without the white space at its end.
pub open spec fn trim_end(s: Seq<char>) -> Seq<char>
    decreases s.len(),
{
    if s.len() > 0 && whitespace(s.last()) {
        trim_end(s.drop_last())
    } else {
        s
    }
}

/// The text without the white space at its start and at its end.
pub open spec fn trim(s: Seq<char>) -> Seq<char> {
    trim_end(trim_start(s))
}

/// Whether the text begins with `prefix`.
pub open spec fn starts_with(s: Seq<char>, prefix: Seq<char>) -> bool {
    prefix.len() <= s.len() && s.take(prefix.len() as int) == prefix
}

/// The place of the first `c` in the text, if it holds one.
pub open spec fn first_index(s: Seq<char>, c: char) -> Option<int>
    decreases s.len(),
{
    if s.len() == 0 {
        None
    } else if s[0] == c {
        Some(0)
    } else {
        match first_index(s.drop_first(), c) {
            Some(i) => Some(i + 1),
            None => None,
        }
    }
}

/// The value of a decimal digit.
pub open spec fn digit_value(c: char) -> Option<nat> {
    if '0' <= c <= '9' {
        Some((c as nat - '0' as nat) as nat)
    } else {
        None
    }
}

/// The number that a run of decimal digits spells, if the text is one; the
/// empty run spells zero.
pub open spec fn digits_value(s: Seq<char>) -> Option<nat>
    decreases s.len(),
{
    if s.len() == 0 {
        Some(0)
    } else {
        match (digits_value(s.drop_last()), digit_value(s.last())) {
            (Some(v), Some(d)) => Some(10 * v + d),
            _ => None,
        }
    }
}

/// The number that the text spells in decimal: a `+` or nothing, and then at
/// least one digit and nothing but digits.
pub open spec fn parse_decimal(s: Seq<char>) -> Option<nat> {
    let body = if s.len() > 0 && s[0] == '+' {
        s.drop_first()
    } else {
        s
    };
    if body.len() == 0 {
        None
    } else {
        digits_value(body)
    }
}

/// Trimming takes characters away and adds none.
pub proof fn lemma_trim_start_len(s: Seq<char>)
    ensures
        trim_start(s).len() <= s.len(),
    decreases s.len(),
{
    if s.len() > 0 && whitespace(s[0]) {
        lemma_trim_start_len(s.drop_first());
    }
}

/// Trimming takes characters away and adds none.
pub proof fn lemma_trim_end_len(s: Seq<char>)
    ensures
        trim_end(s).len() <= s.len(),
    decreases s.len(),
{
    if s.len() > 0 && whitespace(s.last()) {
        lemma_trim_end_len(s.drop_last());
    }
}

/// Trimming takes characters away and adds none.
pub proof fn lemma_trim_len(s: Seq<char>)
    ensures
        trim(s).len() <= s.len(),
{
    lemma_trim_start_len(s);
    lemma_trim_end_len(trim_start(s));
}

/// The first `c` is where `first_index` says, and none stands before it.
pub proof fn lemma_first_index(s: Seq<char>, c: char)
    ensures
        match first_index(s, c) {
            Some(i) => 0 <= i < s.len() && s[i] == c && forall|j: int| 0 <= j < i ==> s[j] != c,
            None => forall|j: int| 0 <= j < s.len() ==> s[j] != c,
        },
    decreases s.len(),
{
    if s.len() > 0 && s[0] != c {
        let tail = s.drop_first();
        lemma_first_index(tail, c);
        match first_index(tail, c) {
            Some(i) => {
                assert forall|j: int| 0 <= j < i + 1 implies s[j] != c by {
                    if j > 0 {
                        assert(tail[j - 1] == s[j]);
                    }
                }
            },
            None => {
                assert forall|j: int| 0 <= j < s.len() implies s[j] != c by {
                    if j > 0 {
                        assert(tail[j - 1] == s[j]);
                    }
                }
            },
        }
    }
}

/// A place that holds `c` with none before it is the first index.
pub proof fn lemma_first_index_is(s: Seq<char>, c: char, i: int)
    requires
        0 <= i < s.len(),
        s[i] == c,
        forall|j: int| 0 <= j < i ==> s[j] != c,
    ensures
        first_index(s, c) == Some(i),
{
    lemma_first_index(s, c);
}

/// A text without `c` has no first index.
pub proof fn lemma_first_index_none(s: Seq<char>, c: char)
    requires
        forall|j: int| 0 <= j < s.len() ==> s[j] != c,
    ensures
        first_index(s, c) is None,
{
    lemma_first_index(s, c);
}

/// The place from which on no white space stands at the start of the part.
pub fn skip_whitespace(chars: &Vec<char>, start: usize, end: usize) -> (s: usize)
    requires
        start <= end <= chars@.len(),
    ensures
        start <= s <= end,
        chars@.subrange(s as int, end as int) == trim_start(
            chars@.subrange(start as int, end as int),
        ),
{
    let mut i: usize = start;
    while i < end && is_whitespace(chars[i])
        invariant
            start <= i <= end <= chars@.len(),
            trim_start(chars@.subrange(i as int, end as int)) == trim_start(
                chars@.subrange(start as int, end as int),
            ),
        decreases end - i,
    {
        assert(chars@.subrange(i as int, end as int).drop_first() =~= chars@.subrange(
            i + 1,
            end as int,
        ));
        i += 1;
    }
    i
}

/// The place up to which no white space stands at the end of the part.
pub fn skip_whitespace_back(chars: &Vec<char>, start: usize, end: usize) -> (e: usize)
    requires
        start <= end <= chars@.len(),
    ensures
        start <= e <= end,
        chars@.subrange(start as int, e as int) == trim_end(
            chars@.subrange(start as int, end as int),
        ),
{
    let mut i: usize = end;
    while i > start && is_whitespace(chars[i - 1])
        invariant
            start <= i <= end <= chars@.len(),
            trim_end(chars@.subrange(start as int, i as int)) == trim_end(
                chars@.subrange(start as int, end as int),
            ),
        decreases i,
    {
        assert(chars@.subrange(start as int, i as int).drop_last() =~= chars@.subrange(
            start as int,
            i - 1,
        ));
        i -= 1;
    }
    i
}

/// Whether the part begins with `prefix`.
pub fn has_prefix(chars: &Vec<char>, start: usize, end: usize, prefix: &Vec<char>) -> (b: bool)
    requires
        start <= end <= chars@.len(),
    ensures
        b == starts_with(chars@.subrange(start as int, end as int), prefix@),
{
    let n = prefix.len();
    if n > end - start {
        return false;
    }
    let ghost part = chars@.subrange(start as int, end as int);
    let mut k: usize = 0;
    while k < n
        invariant
            k <= n,
            n == prefix@.len(),
            start + n <= end <= chars@.len(),
            part == chars@.subrange(start as int, end as int),
            forall|j: int| 0 <= j < k ==> part[j] == prefix@[j],
        decreases n - k,
    {
        if chars[start + k] != prefix[k] {
            assert(part.take(n as int)[k as int] != prefix@[k as int]);
            return false;
        }
        k += 1;
    }
    assert(part.take(n as int) =~= prefix@);
    true
}

/// Whether the part is exactly `text`.
pub fn equals(chars: &Vec<char>, start: usize, end: usize, text: &Vec<char>) -> (b: bool)
    requires
        start <= end <= chars@.len(),
    ensures
        b == (chars@.subrange(start as int, end as int) == text@),
{
    if text.len() != end - start {
        return false;
    }
    let b = has_prefix(chars, start, end, text);
    proof {
        let part = chars@.subrange(start as int, end as int);
        assert(part.take(part.len() as int) =~= part);
    }
    b
}

/// The place of the first `c` in the part, counted from `start`.
pub fn find_char(chars: &Vec<char>, start: usize, end: usize, c: char) -> (r: Option<usize>)
    requires
        start <= end <= chars@.len(),
    ensures
        match r {
            Some(i) => i < end - start && first_index(
                chars@.subrange(start as int, end as int),
                c,
            ) == Some(i as int),
            None => first_index(chars@.subrange(start as int, end as int), c) is None,
        },
{
    let ghost part = chars@.subrange(start as int, end as int);
    let mut i: usize = start;
    while i < end
        invariant
            start <= i <= end <= chars@.len(),
            part == chars@.subrange(start as int, end as int),
            forall|j: int| 0 <= j < i - start ==> part[j] != c,
        decreases end - i,
    {
        if chars[i] == c {
            proof {
                lemma_first_index_is(part, c, i - start);
            }
            return Some(i - start);
        }
        i += 1;
    }
    proof {
        lemma_first_index_none(part, c);
    }
    None
}

/// A run of digits that is the start of another spells no more than it.
pub proof fn lemma_digits_value_grows(s: Seq<char>, n: int)
    requires
        0 <= n <= s.len(),
        digits_value(s) is Some,
    ensures
        digits_value(s.take(n)) is Some,
        digits_value(s.take(n))->0 <= digits_value(s)->0,
    decreases s.len(),
{
    if n == s.len() {
        assert(s.take(n) =~= s);
    } else {
        lemma_digits_value_grows(s.drop_last(), n);
        assert(s.drop_last().take(n) =~= s.take(n));
    }
}

/// Where a part of the run is not made of digits, the run is not.
pub proof fn lemma_digits_value_none(s: Seq<char>, n: int)
    requires
        0 <= n <= s.len(),
        digits_value(s.take(n)) is None,
    ensures
        digits_value(s) is None,
    decreases s.len(),
{
    if n == s.len() {
        assert(s.take(n) =~= s);
    } else {
        assert(s.drop_last().take(n) =~= s.take(n));
        lemma_digits_value_none(s.drop_last(), n);
    }
}

/// The number that the part spells in decimal, where it spells one that a
/// `usize` holds.
pub fn parse_usize(chars: &Vec<char>, start: usize, end: usize) -> (r: Option<usize>)
    requires
        start <= end <= chars@.len(),
    ensures
        r == (match parse_decimal(chars@.subrange(start as int, end as int)) {
            Some(n) => if n <= usize::MAX {
                Some(n as usize)
            } else {
                None
            },
            None => None,
        }),
{
    let ghost part = chars@.subrange(start as int, end as int);
    let from = if start < end && chars[start] == '+' {
        start + 1
    } else {
        start
    };
    let ghost body = chars@.subrange(from as int, end as int);
    assert(body == if part.len() > 0 && part[0] == '+' {
        part.drop_first()
    } else {
        part
    }) by {
        if part.len() > 0 && part[0] == '+' {
            assert(body =~= part.drop_first());
        }
    }
    if from == end {
        return None;
    }
    let mut value: usize = 0;
    let mut i: usize = from;
    while i < end
        invariant
            from <= i <= end <= chars@.len(),
            body == chars@.subrange(from as int, end as int),
            start <= from,
            parse_decimal(chars@.subrange(start as int, end as int)) == digits_value(body),
            digits_value(body.take(i - from)) == Some(value as nat),
        decreases end - i,
    {
        let c = chars[i];
        proof {
            assert(body.take(i - from + 1).drop_last() =~= body.take(i - from));
            assert(body.take(i - from + 1).last() == c);
        }
        if !(c >= '0' && c <= '9') {
            proof {
                lemma_digits_value_none(body, i - from + 1);
            }
            return None;
        }
        let d: usize = (c as u32 - '0' as u32) as usize;
        let next = match value.checked_mul(10) {
            Some(v) => v.checked_add(d),
            None => None,
        };
        match next {
            Some(v) => {
                value = v;
            },
            None => {
                proof {
                    if digits_value(body) is Some {
                        lemma_digits_value_grows(body, i - from + 1);
                    }
                }
                return None;
            },
        }
        i += 1;
    }
    assert(body.take(end - from) =~= body);
    Some(value)
}

} // verus!
