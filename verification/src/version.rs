//! The rule by which a recorded version answers a declared one.
//!
//! Only `major.minor` is read, the way a bare requirement is read as a caret
//! range: within one major version other than 0 everything is compatible,
//! and under major version 0 the minor versions have to agree.

use vstd::prelude::*;
use crate::error::MaskError;
use crate::text::{chars_of, lemma_prefix_len, prefix_end, prefix_len, same_text, stops_at};

verus! {

/// Whether `c` is one of `0` to `9`.
pub open spec fn is_digit(c: char) -> bool {
    '0' <= c <= '9'
}

/// The number that the digit `c` stands for.
pub open spec fn digit_value(c: char) -> nat
    recommends
        is_digit(c),
{
    (c as u32 - '0' as u32) as nat
}

/// The number that `digits` spell in base ten.
pub open spec fn decimal(digits: Seq<char>) -> nat
    decreases digits.len(),
{
    if digits.len() == 0 {
        0
    } else {
        decimal(digits.drop_last()) * 10 + digit_value(digits.last())
    }
}

/// The digits of a component: the component itself, without a leading `+`.
pub open spec fn unsigned(component: Seq<char>) -> Seq<char> {
    if component.len() > 0 && component[0] == '+' {
        component.drop_first()
    } else {
        component
    }
}

/// The number that a component of a version holds: an optional `+`, then
/// at least one digit and nothing else, no larger than `u32::MAX`.
pub open spec fn number(component: Seq<char>) -> Option<u32> {
    let digits = unsigned(component);
    if digits.len() > 0 && (forall|i: int| 0 <= i < digits.len() ==> is_digit(#[trigger] digits[i]))
        && decimal(digits) <= u32::MAX {
        Some(decimal(digits) as u32)
    } else {
        None
    }
}

/// The length of the first component of `text`: the place of its first
/// dot, or its length where it holds none.
pub open spec fn component_len(text: Seq<char>) -> int {
    prefix_len(text, '.')
}

/// The major and the minor version that `version` begins with.
pub open spec fn major_minor(version: Seq<char>) -> Option<(u32, u32)> {
    let dot = component_len(version);
    if dot >= version.len() {
        None
    } else {
        let rest = version.skip(dot + 1);
        match (number(version.take(dot)), number(rest.take(component_len(rest)))) {
            (Some(major), Some(minor)) => Some((major, minor)),
            _ => None,
        }
    }
}

/// Whether two versions, given by major and minor, are compatible.
pub open spec fn compatible(a: (u32, u32), b: (u32, u32)) -> bool {
    a.0 == b.0 && (a.0 != 0 || a.1 == b.1)
}

/// What `covers` answers for a recorded version `first` and a declared
/// version `second`.
pub open spec fn covers_spec(first: Seq<char>, second: Seq<char>) -> Result<bool, MaskError> {
    if second == "*"@ {
        Ok(true)
    } else {
        match (major_minor(first), major_minor(second)) {
            (Some(a), Some(b)) => Ok(compatible(a, b)),
            _ => Err(MaskError::MalformedVersion),
        }
    }
}

/// One more digit at the end of a row of digits: ten times the number so
/// far, and the digit.
pub proof fn lemma_decimal_push(digits: Seq<char>, c: char)
    ensures
        decimal(digits.push(c)) == decimal(digits) * 10 + digit_value(c),
        decimal(Seq::<char>::empty()) == 0,
{
    assert(digits.push(c).drop_last() =~= digits);
}

/// A single digit holds the number that it stands for.
pub proof fn lemma_one_digit(c: char)
    requires
        is_digit(c),
    ensures
        number(seq![c]) == Some((c as u32 - '0' as u32) as u32),
{
    lemma_decimal_push(Seq::empty(), c);
    assert(Seq::<char>::empty().push(c) =~= seq![c]);
}

/// Whether `text` holds no dot.
pub open spec fn dotless(text: Seq<char>) -> bool {
    forall|i: int| 0 <= i < text.len() ==> text[i] != '.'
}

/// A version that is `major`, a dot and `minor`, and then ends or goes on
/// with a dot, begins with the numbers that `major` and `minor` hold.
pub proof fn lemma_major_minor(major: Seq<char>, minor: Seq<char>, rest: Seq<char>)
    requires
        dotless(major),
        dotless(minor),
        rest.len() == 0 || rest[0] == '.',
    ensures
        major_minor(major + seq!['.'] + minor + rest) == match (number(major), number(minor)) {
            (Some(a), Some(b)) => Some((a, b)),
            _ => None,
        },
{
    let version = major + seq!['.'] + minor + rest;
    let dot = major.len() as int;
    assert(stops_at(version, '.', dot)) by {
        assert forall|i: int| 0 <= i < dot implies version[i] != '.' by {
            assert(version[i] == major[i]);
        }
    }
    lemma_prefix_len(version, '.');
    let after = version.skip(dot + 1);
    assert(after =~= minor + rest);
    assert(stops_at(after, '.', minor.len() as int)) by {
        assert forall|i: int| 0 <= i < minor.len() implies after[i] != '.' by {
            assert(after[i] == minor[i]);
        }
    }
    lemma_prefix_len(after, '.');
    assert(version.take(dot) =~= major);
    assert(after.take(minor.len() as int) =~= minor);
}

/// A version without a dot begins with no minor version.
pub proof fn lemma_no_minor(version: Seq<char>)
    requires
        dotless(version),
    ensures
        major_minor(version) is None,
{
    assert(stops_at(version, '.', version.len() as int));
    lemma_prefix_len(version, '.');
}

/// Everything covers `*`, and what is covered does not depend on what
/// follows `major.minor`.
pub proof fn lemma_covers(first: Seq<char>, second: Seq<char>, other: Seq<char>)
    ensures
        covers_spec(first, "*"@) == Ok::<bool, MaskError>(true),
        major_minor(first) is Some && major_minor(first) == major_minor(other) && second != "*"@
            ==> covers_spec(first, second) == covers_spec(other, second),
        major_minor(first) is Some ==> covers_spec(first, first) == Ok::<bool, MaskError>(true),
        second != "*"@ ==> (covers_spec(first, second) is Err <==> major_minor(first) is None
            || major_minor(second) is None),
{
}

/// A longer row of digits spells no smaller a number.
proof fn lemma_decimal_grows(digits: Seq<char>, n: int)
    requires
        0 <= n <= digits.len(),
    ensures
        decimal(digits.take(n)) <= decimal(digits),
    decreases digits.len() - n,
{
    if n == digits.len() {
        assert(digits.take(n) =~= digits);
    } else {
        lemma_decimal_grows(digits, n + 1);
        assert(digits.take(n + 1).drop_last() =~= digits.take(n));
    }
}

/// The number held by `chars[from..to]`.
fn parse_number(chars: &Vec<char>, from: usize, to: usize) -> (r: Option<u32>)
    requires
        from <= to <= chars.len(),
    ensures
        r == number(chars@.subrange(from as int, to as int)),
{
    let ghost component = chars@.subrange(from as int, to as int);
    let start: usize = if from < to && chars[from] == '+' {
        from + 1
    } else {
        from
    };
    let ghost digits = chars@.subrange(start as int, to as int);
    assert(digits =~= unsigned(component));
    if start == to {
        return None;
    }
    let mut value: u64 = 0;
    let mut i: usize = start;
    while i < to
        invariant
            start <= i <= to <= chars.len(),
            digits == chars@.subrange(start as int, to as int),
            digits == unsigned(chars@.subrange(from as int, to as int)),
            forall|j: int| 0 <= j < i - start ==> is_digit(#[trigger] digits[j]),
            value == decimal(digits.take(i - start)),
            value <= u32::MAX,
        decreases to - i,
    {
        let c = chars[i];
        if c < '0' || c > '9' {
            assert(!is_digit(digits[i - start]));
            return None;
        }
        let digit: u64 = (c as u32 - '0' as u32) as u64;
        let next: u64 = value * 10 + digit;
        proof {
            assert(digits.take(i - start + 1).drop_last() =~= digits.take(i - start));
            assert(next == decimal(digits.take(i - start + 1)));
        }
        if next > u32::MAX as u64 {
            proof {
                lemma_decimal_grows(digits, i - start + 1);
            }
            return None;
        }
        value = next;
        i += 1;
    }
    assert(digits.take(to - start) =~= digits);
    Some(value as u32)
}

/// The major and the minor version that `chars` begin with.
fn parse_major_minor(chars: &Vec<char>) -> (r: Option<(u32, u32)>)
    ensures
        r == major_minor(chars@),
{
    let dot = prefix_end(chars, 0, '.');
    assert(chars@.skip(0) =~= chars@);
    if dot >= chars.len() {
        return None;
    }
    let end = prefix_end(chars, dot + 1, '.');
    proof {
        let rest = chars@.skip(dot + 1);
        assert(chars@.subrange(0, dot as int) =~= chars@.take(dot as int));
        assert(chars@.subrange(dot + 1, end as int) =~= rest.take(component_len(rest)));
    }
    let major = parse_number(chars, 0, dot);
    let minor = parse_number(chars, dot + 1, end);
    match (major, minor) {
        (Some(a), Some(b)) => Some((a, b)),
        _ => None,
    }
}

/// Whether the recorded version `first` answers the declared version
/// `second`.
///
/// A `second` of `*` is answered by everything, whatever `first` holds.
/// Otherwise both have to begin with `major.minor`; they are compatible
/// when the majors agree and, under major 0, the minors agree as well.
pub fn covers(first: &str, second: &str) -> (r: Result<bool, MaskError>)
    ensures
        r == covers_spec(first@, second@),
{
    if same_text(second, "*") {
        return Ok(true);
    }
    let a = parse_major_minor(&chars_of(first));
    let b = parse_major_minor(&chars_of(second));
    match (a, b) {
        (Some(x), Some(y)) => Ok(x.0 == y.0 && (x.0 != 0 || x.1 == y.1)),
        _ => Err(MaskError::MalformedVersion),
    }
}

} // verus!
