//! The parser of the little unit language.  Valid inputs are
//! `[float][space][unit_expr]=>[unit_expr]` (a conversion) or `[unit_expr]`
//! (a decomposition); a unit expression is units joined by `*`, with at most
//! one `/`, each unit written `pfx_tag^pow`.

use crate::ast::{Expr, ExprS, Stmt, StmtS};
use crate::units::ParsedUnitS;
use vstd::prelude::*;
use vstd::string::StrSliceExecFns;
use vstd::string::StringExecFns;

verus! {

/// The errors of the parse layer.
#[derive(Debug)]
pub enum ParseError {
    /// More than one space in the input.
    TooMuchSpaces(usize),
    /// A unit entry is empty.
    WrongUnit(String),
    /// The leading numeric literal is malformed.
    ValueWrongBegin(String),
    /// A conversion needs exactly one `=>`.
    ExactlyOneExprSeparator(),
    /// An unknown prefix symbol (reserved for callers of the parse layer).
    UnknownPrefix(String),
    /// An unknown unit tag (reserved for callers of the parse layer).
    UnknownUnit(String),
    /// An exponent that is not a valid signed byte.
    WrongPow(String),
}

/// Mathematical image of a `ParseError`.
pub ghost enum ParseErrorS {
    TooMuchSpaces(int),
    WrongUnit(Seq<char>),
    ValueWrongBegin(Seq<char>),
    ExactlyOneExprSeparator,
    UnknownPrefix(Seq<char>),
    UnknownUnit(Seq<char>),
    WrongPow(Seq<char>),
}

impl View for ParseError {
    type V = ParseErrorS;

    open spec fn view(&self) -> ParseErrorS {
        match self {
            ParseError::TooMuchSpaces(n) => ParseErrorS::TooMuchSpaces(*n as int),
            ParseError::WrongUnit(s) => ParseErrorS::WrongUnit(s@),
            ParseError::ValueWrongBegin(s) => ParseErrorS::ValueWrongBegin(s@),
            ParseError::ExactlyOneExprSeparator() => ParseErrorS::ExactlyOneExprSeparator,
            ParseError::UnknownPrefix(s) => ParseErrorS::UnknownPrefix(s@),
            ParseError::UnknownUnit(s) => ParseErrorS::UnknownUnit(s@),
            ParseError::WrongPow(s) => ParseErrorS::WrongPow(s@),
        }
    }
}

impl ParseError {
    /// The error rendered for a reader.
    pub fn message(&self) -> (r: String)
        ensures
            r@ == match self@ {
                ParseErrorS::TooMuchSpaces(n) => "input cannot contain: "@ + crate::text::dec_str(
                    n,
                ) + " spaces, 0 or 1 is allowed"@,
                ParseErrorS::WrongUnit(_) => "Unit entry is wrong"@,
                ParseErrorS::ValueWrongBegin(s) => "float input wrong: "@ + s,
                ParseErrorS::ExactlyOneExprSeparator => (
                "Convert Stmt allowed exactly one '=>' occurrence"@),
                ParseErrorS::UnknownPrefix(s) => "unknown unit prefix: "@ + s,
                ParseErrorS::UnknownUnit(s) => "unknown unit: "@ + s,
                ParseErrorS::WrongPow(s) => "pow cannot be parsed as valid i8: "@ + s,
            },
    {
        match self {
            ParseError::TooMuchSpaces(n) => {
                let mut s = String::new();
                s.append("input cannot contain: ");
                crate::text::push_digits(&mut s, *n as u64);
                s.append(" spaces, 0 or 1 is allowed");
                proof {
                    assert(s@ =~= "input cannot contain: "@ + crate::text::dec_str(*n as int)
                        + " spaces, 0 or 1 is allowed"@);
                }
                s
            },
            ParseError::WrongUnit(_) => String::from_str("Unit entry is wrong"),
            ParseError::ValueWrongBegin(v) => {
                let mut s = String::new();
                s.append("float input wrong: ");
                s.append(v.as_str());
                proof {
                    assert(s@ =~= "float input wrong: "@ + v@);
                }
                s
            },
            ParseError::ExactlyOneExprSeparator() => String::from_str(
                "Convert Stmt allowed exactly one '=>' occurrence",
            ),
            ParseError::UnknownPrefix(v) => {
                let mut s = String::new();
                s.append("unknown unit prefix: ");
                s.append(v.as_str());
                proof {
                    assert(s@ =~= "unknown unit prefix: "@ + v@);
                }
                s
            },
            ParseError::UnknownUnit(v) => {
                let mut s = String::new();
                s.append("unknown unit: ");
                s.append(v.as_str());
                proof {
                    assert(s@ =~= "unknown unit: "@ + v@);
                }
                s
            },
            ParseError::WrongPow(v) => {
                let mut s = String::new();
                s.append("pow cannot be parsed as valid i8: ");
                s.append(v.as_str());
                proof {
                    assert(s@ =~= "pow cannot be parsed as valid i8: "@ + v@);
                }
                s
            },
        }
    }
}

/// How often `c` occurs in `s`.
pub open spec fn count_char(s: Seq<char>, c: char) -> nat
    decreases s.len(),
{
    if s.len() == 0 {
        0
    } else {
        (if s[0] == c {
            1nat
        } else {
            0nat
        }) + count_char(s.drop_first(), c)
    }
}

/// Index of the first occurrence of `c` in `s`, or -1.
pub open spec fn find_char(s: Seq<char>, c: char) -> int
    decreases s.len(),
{
    if s.len() == 0 {
        -1
    } else if s[0] == c {
        0
    } else {
        let r = find_char(s.drop_first(), c);
        if r < 0 {
            -1
        } else {
            r + 1
        }
    }
}

/// Index of the last occurrence of `c` in `s`, or -1.
pub open spec fn rfind_char(s: Seq<char>, c: char) -> int
    decreases s.len(),
{
    if s.len() == 0 {
        -1
    } else {
        let r = rfind_char(s.drop_last(), c);
        if s.last() == c {
            s.len() - 1
        } else {
            r
        }
    }
}

/// How often the two-character conversion separator `=>` occurs in `s`,
/// counting occurrences from the left without overlap.
pub open spec fn count_sep(s: Seq<char>) -> nat
    decreases s.len(),
{
    if s.len() < 2 {
        0
    } else if s[0] == '=' && s[1] == '>' {
        1 + count_sep(s.skip(2))
    } else {
        count_sep(s.drop_first())
    }
}

/// Index of the first occurrence of `=>` in `s`, or -1.
pub open spec fn find_sep(s: Seq<char>) -> int
    decreases s.len(),
{
    if s.len() < 2 {
        -1
    } else if s[0] == '=' && s[1] == '>' {
        0
    } else {
        let r = find_sep(s.drop_first());
        if r < 0 {
            -1
        } else {
            r + 1
        }
    }
}

pub broadcast proof fn lemma_find_char(s: Seq<char>, c: char)
    ensures
        #[trigger] find_char(s, c) >= 0 ==> find_char(s, c) < s.len() && s[find_char(s, c)] == c
            && (forall|j: int| 0 <= j < find_char(s, c) ==> s[j] != c),
        find_char(s, c) < 0 ==> forall|j: int| 0 <= j < s.len() ==> s[j] != c,
    decreases s.len(),
{
    if s.len() > 0 && s[0] != c {
        lemma_find_char(s.drop_first(), c);
        let r = find_char(s.drop_first(), c);
        if r >= 0 {
            assert(s[r + 1] == s.drop_first()[r]);
            assert forall|j: int| 0 <= j < find_char(s, c) implies s[j] != c by {
                if j > 0 {
                    assert(s[j] == s.drop_first()[j - 1]);
                }
            }
        } else {
            assert forall|j: int| 0 <= j < s.len() implies s[j] != c by {
                if j > 0 {
                    assert(s[j] == s.drop_first()[j - 1]);
                }
            }
        }
    }
}

/// Counts the occurrences of `c` in `s`.
pub fn char_count(s: &str, c: char) -> (n: usize)
    ensures
        n == count_char(s@, c),
{
    let len = s.unicode_len();
    let mut i: usize = 0;
    let mut n: usize = 0;
    proof {
        assert(s@.skip(0) =~= s@);
    }
    while i < len
        invariant
            i <= len,
            len == s@.len(),
            n <= i,
            n + count_char(s@.skip(i as int), c) == count_char(s@, c),
        decreases len - i,
    {
        proof {
            assert(s@.skip(i as int)[0] == s@[i as int]);
            assert(s@.skip(i as int).drop_first() =~= s@.skip(i + 1 as int));
        }
        if s.get_char(i) == c {
            n = n + 1;
        }
        i = i + 1;
    }
    proof {
        assert(s@.skip(len as int).len() == 0);
    }
    n
}

/// Finds the first occurrence of `c` in `s`.
pub fn char_find(s: &str, c: char) -> (r: Option<usize>)
    ensures
        match r {
            Some(i) => find_char(s@, c) == i as int,
            None => find_char(s@, c) < 0,
        },
{
    broadcast use lemma_find_char;

    let len = s.unicode_len();
    let mut i: usize = 0;
    while i < len
        invariant
            i <= len,
            len == s@.len(),
            forall|j: int| 0 <= j < i ==> s@[j] != c,
        decreases len - i,
    {
        if s.get_char(i) == c {
            proof {
                let f = find_char(s@, c);
                if f < i {
                    assert(s@[f] == c);
                }
                if f > i || f < 0 {
                    assert(s@[i as int] != c);
                }
            }
            return Some(i);
        }
        i = i + 1;
    }
    proof {
        if find_char(s@, c) >= 0 {
            assert(s@[find_char(s@, c)] == c);
        }
    }
    None
}

/// Counts the occurrences of the conversion separator in `s`.
pub fn sep_count(s: &str) -> (n: usize)
    ensures
        n == count_sep(s@),
{
    let len = s.unicode_len();
    let mut i: usize = 0;
    let mut n: usize = 0;
    proof {
        assert(s@.skip(0) =~= s@);
    }
    while i < len
        invariant
            i <= len,
            len == s@.len(),
            n <= i,
            n + count_sep(s@.skip(i as int)) == count_sep(s@),
        decreases len - i,
    {
        proof {
            if i + 1 < len {
                assert(s@.skip(i as int)[0] == s@[i as int]);
                assert(s@.skip(i as int)[1] == s@[i + 1]);
                assert(s@.skip(i as int).skip(2) =~= s@.skip(i + 2 as int));
                assert(s@.skip(i as int).drop_first() =~= s@.skip(i + 1 as int));
            } else {
                assert(s@.skip(i as int).len() < 2);
                assert(s@.skip(i + 1 as int).len() < 2);
            }
        }
        if s.get_char(i) == '=' && i + 1 < len && s.get_char(i + 1) == '>' {
            n = n + 1;
            i = i + 2;
        } else {
            i = i + 1;
        }
    }
    proof {
        assert(s@.skip(i as int).len() < 2);
    }
    n
}

/// Finds the first occurrence of the conversion separator in `s`.
pub fn sep_find(s: &str) -> (r: Option<usize>)
    ensures
        match r {
            Some(i) => find_sep(s@) == i as int && i + 2 <= s@.len(),
            None => find_sep(s@) < 0,
        },
{
    let len = s.unicode_len();
    let mut i: usize = 0;
    proof {
        assert(s@.skip(0) =~= s@);
    }
    while i < len
        invariant
            i <= len,
            len == s@.len(),
            find_sep(s@) == if find_sep(s@.skip(i as int)) < 0 {
                -1
            } else {
                find_sep(s@.skip(i as int)) + i
            },
        decreases len - i,
    {
        proof {
            if i + 1 < len {
                assert(s@.skip(i as int)[0] == s@[i as int]);
                assert(s@.skip(i as int)[1] == s@[i + 1]);
                assert(s@.skip(i as int).drop_first() =~= s@.skip(i + 1 as int));
            } else {
                assert(s@.skip(i as int).len() < 2);
                assert(s@.skip(i + 1 as int).len() < 2);
            }
        }
        if s.get_char(i) == '=' && i + 1 < len && s.get_char(i + 1) == '>' {
            return Some(i);
        }
        i = i + 1;
    }
    proof {
        assert(s@.skip(i as int).len() < 2);
    }
    None
}

/// A decimal digit.
pub open spec fn is_digit(c: char) -> bool {
    '0' <= c <= '9'
}

/// One or more decimal digits.
pub open spec fn digits1(s: Seq<char>) -> bool {
    s.len() >= 1 && forall|i: int| 0 <= i < s.len() ==> is_digit(#[trigger] s[i])
}

/// The numeric value of a digit string, most significant digit first.
pub open spec fn digits_val(s: Seq<char>) -> int
    decreases s.len(),
{
    if s.len() == 0 {
        0
    } else {
        digits_val(s.drop_last()) * 10 + (s.last() as int - 48)
    }
}

/// An optionally signed integer literal, as `i8::from_str` reads it: an
/// optional sign followed by one or more decimal digits.
pub open spec fn is_int_lit(s: Seq<char>) -> bool {
    if s.len() >= 1 && (s[0] == '+' || s[0] == '-') {
        digits1(s.drop_first())
    } else {
        digits1(s)
    }
}

/// The value of an integer literal.
pub open spec fn int_lit_val(s: Seq<char>) -> int {
    if s.len() >= 1 && s[0] == '-' {
        -digits_val(s.drop_first())
    } else if s.len() >= 1 && s[0] == '+' {
        digits_val(s.drop_first())
    } else {
        digits_val(s)
    }
}

/// A valid signed-byte literal: well formed and within range.
pub open spec fn is_i8_lit(s: Seq<char>) -> bool {
    is_int_lit(s) && -128 <= int_lit_val(s) <= 127
}

/// Reads the digit string `s`, keeping the accumulator's growth capped; the
/// result is exact below the cap and at least the cap otherwise.
fn digits_read(s: &str, from: usize) -> (r: i32)
    requires
        from <= s@.len(),
        forall|i: int| from <= i < s@.len() ==> is_digit(#[trigger] s@[i]),
    ensures
        digits_val(s@.skip(from as int)) < 10000 ==> r as int == digits_val(
            s@.skip(from as int),
        ),
        digits_val(s@.skip(from as int)) >= 10000 ==> r >= 10000,
        r >= 0,
{
    let len = s.unicode_len();
    let mut i: usize = from;
    let mut acc: i32 = 0;
    proof {
        assert(s@.skip(from as int).take(0) =~= Seq::<char>::empty());
    }
    while i < len
        invariant
            from <= i <= len,
            len == s@.len(),
            0 <= acc <= 100000,
            digits_val(s@.skip(from as int).take(i - from)) < 10000 ==> acc as int == digits_val(
                s@.skip(from as int).take(i - from),
            ),
            digits_val(s@.skip(from as int).take(i - from)) >= 10000 ==> acc >= 10000,
        decreases len - i,
    {
        let c = s.get_char(i);
        proof {
            assert(is_digit(s@[i as int]));
            let pre = s@.skip(from as int).take(i - from);
            let post = s@.skip(from as int).take(i + 1 - from);
            assert(post.drop_last() =~= pre);
            assert(post.last() == s@[i as int]);
            lemma_digits_val_grows(pre, s@[i as int]);
        }
        let d = (c as u32) as i32 - 48;
        if acc < 10000 {
            acc = acc * 10 + d;
        }
        i = i + 1;
    }
    proof {
        assert(s@.skip(from as int).take(len - from) =~= s@.skip(from as int));
    }
    acc
}

/// Appending a digit multiplies the value by ten and adds the digit; values
/// at or above the cap stay there.
proof fn lemma_digits_val_grows(pre: Seq<char>, c: char)
    requires
        is_digit(c),
    ensures
        digits_val(pre.push(c)) == digits_val(pre) * 10 + (c as int - 48),
        digits_val(pre) >= 10000 ==> digits_val(pre.push(c)) >= 10000,
{
    assert(pre.push(c).drop_last() =~= pre);
    assert(pre.push(c).last() == c);
    if digits_val(pre) >= 10000 {
        assert(digits_val(pre) * 10 >= 10000 * 10) by (nonlinear_arith)
            requires
                digits_val(pre) >= 10000,
        ;
    }
}

/// A positive occurrence count means the character occurs.
pub proof fn lemma_count_find(s: Seq<char>, c: char)
    ensures
        (count_char(s, c) > 0) == (find_char(s, c) >= 0),
    decreases s.len(),
{
    if s.len() > 0 && s[0] != c {
        lemma_count_find(s.drop_first(), c);
    }
}

/// Finds the last occurrence of `c` in `s`.
pub fn char_rfind(s: &str, c: char) -> (r: Option<usize>)
    ensures
        match r {
            Some(i) => rfind_char(s@, c) == i as int && i < s@.len(),
            None => rfind_char(s@, c) < 0,
        },
{
    let len = s.unicode_len();
    let mut i: usize = 0;
    let mut found = false;
    let mut at: usize = 0;
    proof {
        assert(s@.take(0) =~= Seq::<char>::empty());
    }
    while i < len
        invariant
            i <= len,
            len == s@.len(),
            found ==> at < i && rfind_char(s@.take(i as int), c) == at as int,
            !found ==> rfind_char(s@.take(i as int), c) < 0,
        decreases len - i,
    {
        proof {
            assert(s@.take(i + 1 as int).drop_last() =~= s@.take(i as int));
            assert(s@.take(i + 1 as int).last() == s@[i as int]);
        }
        if s.get_char(i) == c {
            found = true;
            at = i;
        }
        i = i + 1;
    }
    proof {
        assert(s@.take(len as int) =~= s@);
    }
    if found {
        Some(at)
    } else {
        None
    }
}

/// One character of the word matched without regard to letter case.
pub open spec fn eqi(c: char, lower: char, upper: char) -> bool {
    c == lower || c == upper
}

/// The word `inf`, in any letter case.
pub open spec fn is_inf(b: Seq<char>) -> bool {
    b.len() == 3 && eqi(b[0], 'i', 'I') && eqi(b[1], 'n', 'N') && eqi(b[2], 'f', 'F')
}

/// The word `infinity`, in any letter case.
pub open spec fn is_infinity(b: Seq<char>) -> bool {
    &&& b.len() == 8
    &&& eqi(b[0], 'i', 'I')
    &&& eqi(b[1], 'n', 'N')
    &&& eqi(b[2], 'f', 'F')
    &&& eqi(b[3], 'i', 'I')
    &&& eqi(b[4], 'n', 'N')
    &&& eqi(b[5], 'i', 'I')
    &&& eqi(b[6], 't', 'T')
    &&& eqi(b[7], 'y', 'Y')
}

/// The word `nan`, in any letter case.
pub open spec fn is_nan(b: Seq<char>) -> bool {
    b.len() == 3 && eqi(b[0], 'n', 'N') && eqi(b[1], 'a', 'A') && eqi(b[2], 'n', 'N')
}

/// The body with an optional leading sign removed.
pub open spec fn strip_sign(s: Seq<char>) -> Seq<char> {
    if s.len() >= 1 && (s[0] == '+' || s[0] == '-') {
        s.drop_first()
    } else {
        s
    }
}

/// Index of the first exponent marker `e` or `E`, or -1.
pub open spec fn find_e(s: Seq<char>) -> int
    decreases s.len(),
{
    if s.len() == 0 {
        -1
    } else if s[0] == 'e' || s[0] == 'E' {
        0
    } else {
        let r = find_e(s.drop_first());
        if r < 0 {
            -1
        } else {
            r + 1
        }
    }
}

/// A mantissa: digits with at most one decimal point and at least one digit.
pub open spec fn is_mantissa(m: Seq<char>) -> bool {
    &&& m.len() >= 1
    &&& count_char(m, '.') <= 1
    &&& (forall|i: int| 0 <= i < m.len() ==> is_digit(#[trigger] m[i]) || m[i] == '.')
    &&& (exists|i: int| 0 <= i < m.len() && is_digit(#[trigger] m[i]))
}

/// An unsigned numeric body: a mantissa, optionally followed by an exponent
/// marker and an optionally signed digit string.
pub open spec fn is_number(b: Seq<char>) -> bool {
    let ei = find_e(b);
    if ei < 0 {
        is_mantissa(b)
    } else {
        is_mantissa(b.take(ei)) && is_int_lit(b.skip(ei + 1))
    }
}

/// A floating-point literal as `f64::from_str` reads it: an optional sign,
/// then `inf`, `infinity` or `nan` in any letter case, or a numeric body.
pub open spec fn is_float_lit(s: Seq<char>) -> bool {
    let b = strip_sign(s);
    ||| is_inf(b)
    ||| is_infinity(b)
    ||| is_nan(b)
    ||| is_number(b)
}

/// Whether `s@.subrange(from, to)` is a mantissa.
fn check_mantissa(s: &str, from: usize, to: usize) -> (r: bool)
    requires
        from <= to <= s@.len(),
    ensures
        r == is_mantissa(s@.subrange(from as int, to as int)),
{
    let ghost m = s@.subrange(from as int, to as int);
    if to == from {
        return false;
    }
    let mut i: usize = from;
    let mut dots: usize = 0;
    let mut seen_digit = false;
    proof {
        assert(m.take(0) =~= Seq::<char>::empty());
    }
    while i < to
        invariant
            from <= i <= to <= s@.len(),
            m == s@.subrange(from as int, to as int),
            dots == count_char(m.take(i - from), '.'),
            dots <= i - from,
            forall|j: int| 0 <= j < i - from ==> is_digit(#[trigger] m[j]) || m[j] == '.',
            seen_digit == exists|j: int| 0 <= j < i - from && is_digit(#[trigger] m[j]),
        decreases to - i,
    {
        let c = s.get_char(i);
        proof {
            assert(m[i - from] == s@[i as int]);
            lemma_count_push(m.take(i - from), m[i - from], '.');
            assert(m.take(i + 1 - from) =~= m.take(i - from).push(m[i - from]));
        }
        if '0' <= c && c <= '9' {
            seen_digit = true;
        } else if c == '.' {
            dots = dots + 1;
        } else {
            return false;
        }
        i = i + 1;
    }
    proof {
        assert(m.take(to - from) =~= m);
    }
    dots <= 1 && seen_digit
}

/// Appending a character steps the count by one exactly when it matches.
pub proof fn lemma_count_push(s: Seq<char>, x: char, c: char)
    ensures
        x == c ==> count_char(s.push(x), c) == count_char(s, c) + 1,
        x != c ==> count_char(s.push(x), c) == count_char(s, c),
    decreases s.len(),
{
    if s.len() == 0 {
        assert(s.push(x)[0] == x);
        assert(s.push(x).drop_first() =~= Seq::<char>::empty());
        assert(count_char(s.push(x).drop_first(), c) == 0);
        assert(count_char(s, c) == 0);
    } else {
        assert(s.push(x).drop_first() =~= s.drop_first().push(x));
        assert(s.push(x)[0] == s[0]);
        lemma_count_push(s.drop_first(), x, c);
    }
}

/// Whether `s@.subrange(from, to)` is an optionally signed digit string.
fn check_int_lit(s: &str, from: usize, to: usize) -> (r: bool)
    requires
        from <= to <= s@.len(),
    ensures
        r == is_int_lit(s@.subrange(from as int, to as int)),
{
    let ghost m = s@.subrange(from as int, to as int);
    if to == from {
        return false;
    }
    let c0 = s.get_char(from);
    proof {
        assert(m[0] == s@[from as int]);
    }
    let start: usize = if c0 == '+' || c0 == '-' {
        from + 1
    } else {
        from
    };
    if start == to {
        proof {
            if c0 == '+' || c0 == '-' {
                assert(m.drop_first().len() == 0);
            }
        }
        return false;
    }
    let mut i: usize = start;
    while i < to
        invariant
            start <= i <= to <= s@.len(),
            from <= start,
            m == s@.subrange(from as int, to as int),
            forall|j: int| start - from <= j < i - from ==> is_digit(#[trigger] m[j]),
        decreases to - i,
    {
        let c = s.get_char(i);
        proof {
            assert(m[i - from] == s@[i as int]);
        }
        if !('0' <= c && c <= '9') {
            proof {
                if c0 == '+' || c0 == '-' {
                    assert(m.drop_first()[i - from - 1] == m[i - from]);
                    assert(!digits1(m.drop_first()));
                } else {
                    assert(!digits1(m));
                }
            }
            return false;
        }
        i = i + 1;
    }
    proof {
        if c0 == '+' || c0 == '-' {
            assert forall|j: int| 0 <= j < m.drop_first().len() implies is_digit(
                #[trigger] m.drop_first()[j],
            ) by {
                assert(m.drop_first()[j] == m[j + 1]);
            }
        }
    }
    true
}

/// Whether the text is a floating-point literal, by the grammar that
/// `f64::from_str` documents.
pub fn is_float_literal(s: &str) -> (r: bool)
    ensures
        r == is_float_lit(s@),
{
    let len = s.unicode_len();
    let start: usize = if len >= 1 {
        let c0 = s.get_char(0);
        if c0 == '+' || c0 == '-' {
            1
        } else {
            0
        }
    } else {
        0
    };
    let ghost b = strip_sign(s@);
    proof {
        assert(b =~= s@.skip(start as int));
        assert(b =~= s@.subrange(start as int, s@.len() as int));
    }
    let n = len - start;
    if n == 3 {
        let c0 = s.get_char(start);
        let c1 = s.get_char(start + 1);
        let c2 = s.get_char(start + 2);
        proof {
            assert(b[0] == s@[start as int] && b[1] == s@[start + 1] && b[2] == s@[start + 2]);
        }
        if (c0 == 'i' || c0 == 'I') && (c1 == 'n' || c1 == 'N') && (c2 == 'f' || c2 == 'F') {
            return true;
        }
        if (c0 == 'n' || c0 == 'N') && (c1 == 'a' || c1 == 'A') && (c2 == 'n' || c2 == 'N') {
            return true;
        }
    }
    if n == 8 {
        let c0 = s.get_char(start);
        let c1 = s.get_char(start + 1);
        let c2 = s.get_char(start + 2);
        let c3 = s.get_char(start + 3);
        let c4 = s.get_char(start + 4);
        let c5 = s.get_char(start + 5);
        let c6 = s.get_char(start + 6);
        let c7 = s.get_char(start + 7);
        proof {
            assert(b[0] == s@[start as int] && b[1] == s@[start + 1] && b[2] == s@[start + 2]
                && b[3] == s@[start + 3] && b[4] == s@[start + 4] && b[5] == s@[start + 5] && b[6]
                == s@[start + 6] && b[7] == s@[start + 7]);
        }
        if (c0 == 'i' || c0 == 'I') && (c1 == 'n' || c1 == 'N') && (c2 == 'f' || c2 == 'F') && (c3
            == 'i' || c3 == 'I') && (c4 == 'n' || c4 == 'N') && (c5 == 'i' || c5 == 'I') && (c6
            == 't' || c6 == 'T') && (c7 == 'y' || c7 == 'Y') {
            return true;
        }
    }
    // numeric body: find the exponent marker, if any
    let mut ei: usize = start;
    let mut has_e = false;
    while ei < len && !has_e
        invariant
            start <= ei <= len,
            len == s@.len(),
            b == s@.subrange(start as int, len as int),
            !has_e ==> forall|j: int| 0 <= j < ei - start ==> b[j] != 'e' && b[j] != 'E',
            has_e ==> ei - start < b.len() && (b[ei - start] == 'e' || b[ei - start] == 'E') && (
            forall|j: int| 0 <= j < ei - start ==> b[j] != 'e' && b[j] != 'E'),
        decreases len - ei + (if has_e {
            0int
        } else {
            1int
        }),
    {
        let c = s.get_char(ei);
        proof {
            assert(b[ei - start] == s@[ei as int]);
        }
        if c == 'e' || c == 'E' {
            has_e = true;
        } else {
            ei = ei + 1;
        }
    }
    proof {
        lemma_find_e_at(b, ei - start, has_e);
    }
    if has_e {
        let r = check_mantissa(s, start, ei) && check_int_lit(s, ei + 1, len);
        proof {
            assert(b.take(ei - start) =~= s@.subrange(start as int, ei as int));
            assert(b.skip(ei - start + 1) =~= s@.subrange(ei + 1 as int, len as int));
            assert(!is_inf(b) && !is_infinity(b) && !is_nan(b));
        }
        r
    } else {
        let r = check_mantissa(s, start, len);
        proof {
            assert(b.take(b.len() as int) =~= s@.subrange(start as int, len as int));
            if r {
            } else {
                assert(!is_inf(b) && !is_infinity(b) && !is_nan(b)) by {
                    if is_inf(b) || is_infinity(b) || is_nan(b) {
                        assert(!is_mantissa(b));
                    }
                }
            }
        }
        r
    }
}

/// Where the scan stopped is where the first exponent marker stands.
proof fn lemma_find_e_at(b: Seq<char>, k: int, found: bool)
    requires
        0 <= k <= b.len(),
        found ==> k < b.len() && (b[k] == 'e' || b[k] == 'E'),
        forall|j: int| 0 <= j < k ==> b[j] != 'e' && b[j] != 'E',
        !found ==> k == b.len(),
    ensures
        found ==> find_e(b) == k,
        !found ==> find_e(b) < 0,
    decreases b.len(),
{
    if b.len() > 0 && !(b[0] == 'e' || b[0] == 'E') {
        assert forall|j: int| 0 <= j < k - 1 implies b.drop_first()[j] != 'e' && b.drop_first()[j]
            != 'E' by {
            assert(b.drop_first()[j] == b[j + 1]);
        }
        if found {
            assert(b.drop_first()[k - 1] == b[k]);
        }
        lemma_find_e_at(b.drop_first(), k - 1, found);
    } else if b.len() > 0 && k > 0 {
        assert(b[0] != 'e' && b[0] != 'E');
    }
}

/// Reads an exponent as `i8::from_str` would: `None` exactly when the text is
/// not an optionally signed digit string whose value fits a signed byte.
pub fn parse_i8(s: &str) -> (r: Option<i8>)
    ensures
        match r {
            Some(v) => is_i8_lit(s@) && v as int == int_lit_val(s@),
            None => !is_i8_lit(s@),
        },
{
    let len = s.unicode_len();
    if len == 0 {
        return None;
    }
    let c0 = s.get_char(0);
    let neg = c0 == '-';
    let signed = neg || c0 == '+';
    let start: usize = if signed {
        1
    } else {
        0
    };
    if start == len {
        proof {
            if signed {
                assert(!digits1(s@.drop_first()));
            }
        }
        return None;
    }
    let mut i: usize = start;
    while i < len
        invariant
            start <= i <= len,
            len == s@.len(),
            forall|j: int| start <= j < i ==> is_digit(#[trigger] s@[j]),
        decreases len - i,
    {
        let c = s.get_char(i);
        if !('0' <= c && c <= '9') {
            proof {
                if signed {
                    assert(s@.drop_first()[i - 1] == s@[i as int]);
                    assert(!digits1(s@.drop_first()));
                } else {
                    assert(!digits1(s@));
                }
            }
            return None;
        }
        i = i + 1;
    }
    proof {
        if signed {
            assert forall|j: int| 0 <= j < s@.drop_first().len() implies is_digit(
                #[trigger] s@.drop_first()[j],
            ) by {
                assert(s@.drop_first()[j] == s@[j + 1]);
            }
            assert(digits1(s@.drop_first()));
            assert(s@.drop_first() =~= s@.skip(start as int));
        } else {
            assert(digits1(s@));
            assert(s@.skip(0) =~= s@);
        }
        assert(is_int_lit(s@));
    }
    let mag = digits_read(s, start);
    let ghost v = digits_val(s@.skip(start as int));
    if neg {
        if mag > 128 {
            proof {
                assert(int_lit_val(s@) == -v);
                assert(v > 128 || v >= 10000);
            }
            return None;
        }
        proof {
            assert(v == mag as int);
        }
        Some((-mag) as i8)
    } else {
        if mag > 127 {
            proof {
                assert(int_lit_val(s@) == v);
                assert(v > 127 || v >= 10000);
            }
            return None;
        }
        proof {
            assert(v == mag as int);
        }
        Some(mag as i8)
    }
}


/// What parsing one unit entry yields: the four fields of a unit occurrence,
/// split out of `pfx_tag^pow`.  An empty entry is rejected; an entry whose
/// underscore or caret count leaves every case below is passed through with
/// an empty tag, for the algebra layer to reject as an unknown unit.
pub open spec fn parse_unit_s(s: Seq<char>, den: bool) -> Result<ExprS, ParseErrorS> {
    if s.len() == 0 {
        Err(ParseErrorS::WrongUnit(s))
    } else {
        let uc = count_char(s, '_');
        let pw = count_char(s, '^');
        if uc == 0 && pw == 0 {
            Ok(ExprS::Unit(ParsedUnitS { pfx: None, tag: s, pow: 1, den }))
        } else if uc == 1 && pw == 0 {
            let i = find_char(s, '_');
            Ok(
                ExprS::Unit(
                    ParsedUnitS { pfx: Some(s.take(i)), tag: s.skip(i + 1), pow: 1, den },
                ),
            )
        } else if uc == 0 && pw == 1 {
            let i = find_char(s, '^');
            let powpart = s.skip(i + 1);
            if is_i8_lit(powpart) {
                Ok(
                    ExprS::Unit(
                        ParsedUnitS {
                            pfx: None,
                            tag: s.take(i),
                            pow: int_lit_val(powpart),
                            den,
                        },
                    ),
                )
            } else {
                Err(ParseErrorS::WrongPow(powpart))
            }
        } else if uc == 1 && pw == 1 {
            let i = find_char(s, '_');
            let rest = s.skip(i + 1);
            let j = rfind_char(rest, '^');
            if j < 0 {
                Err(ParseErrorS::WrongPow(rest))
            } else {
                let powpart = rest.skip(j + 1);
                if is_i8_lit(powpart) {
                    Ok(
                        ExprS::Unit(
                            ParsedUnitS {
                                pfx: Some(s.take(i)),
                                tag: rest.take(j),
                                pow: int_lit_val(powpart),
                                den,
                            },
                        ),
                    )
                } else {
                    Err(ParseErrorS::WrongPow(powpart))
                }
            }
        } else {
            Ok(ExprS::Unit(ParsedUnitS { pfx: None, tag: Seq::empty(), pow: 1, den }))
        }
    }
}

/// Parses one unit entry, written `pfx_tag^pow` with the prefix and the
/// exponent optional; `den` marks a denominator occurrence.
pub fn parse_unit(input: &str, den: bool) -> (r: Result<Expr, ParseError>)
    ensures
        match r {
            Ok(e) => parse_unit_s(input@, den) == Ok::<ExprS, ParseErrorS>(e@),
            Err(pe) => parse_unit_s(input@, den) == Err::<ExprS, ParseErrorS>(pe@),
        },
{
    broadcast use lemma_find_char;

    let len = input.unicode_len();
    if len == 0 {
        return Err(ParseError::WrongUnit(String::from_str(input)));
    }
    let uc = char_count(input, '_');
    let pw = char_count(input, '^');
    if uc == 0 && pw == 0 {
        Ok(Expr::Unit { pfx: None, tag: String::from_str(input), pow: 1, den })
    } else if uc == 1 && pw == 0 {
        let i = match char_find(input, '_') {
            Some(i) => i,
            None => {
                proof {
                    lemma_count_find(input@, '_');
                }
                return Err(ParseError::WrongUnit(String::from_str(input)));
            },
        };
        let pfx = String::from_str(input.substring_char(0, i));
        let tag = String::from_str(input.substring_char(i + 1, len));
        proof {
            assert(pfx@ =~= input@.take(i as int));
            assert(tag@ =~= input@.skip(i + 1 as int));
        }
        Ok(Expr::Unit { pfx: Some(pfx), tag, pow: 1, den })
    } else if uc == 0 && pw == 1 {
        let i = match char_find(input, '^') {
            Some(i) => i,
            None => {
                proof {
                    lemma_count_find(input@, '^');
                }
                return Err(ParseError::WrongUnit(String::from_str(input)));
            },
        };
        let powpart = input.substring_char(i + 1, len);
        proof {
            assert(powpart@ =~= input@.skip(i + 1 as int));
        }
        match parse_i8(powpart) {
            Some(v) => {
                let tag = String::from_str(input.substring_char(0, i));
                proof {
                    assert(tag@ =~= input@.take(i as int));
                }
                Ok(Expr::Unit { pfx: None, tag, pow: v, den })
            },
            None => Err(ParseError::WrongPow(String::from_str(powpart))),
        }
    } else if uc == 1 && pw == 1 {
        let i = match char_find(input, '_') {
            Some(i) => i,
            None => {
                proof {
                    lemma_count_find(input@, '_');
                }
                return Err(ParseError::WrongUnit(String::from_str(input)));
            },
        };
        let rest = input.substring_char(i + 1, len);
        proof {
            assert(rest@ =~= input@.skip(i + 1 as int));
        }
        match char_rfind(rest, '^') {
            None => Err(ParseError::WrongPow(String::from_str(rest))),
            Some(j) => {
                let restlen = rest.unicode_len();
                let powpart = rest.substring_char(j + 1, restlen);
                proof {
                    assert(powpart@ =~= rest@.skip(j + 1 as int));
                }
                match parse_i8(powpart) {
                    Some(v) => {
                        let pfx = String::from_str(input.substring_char(0, i));
                        let tag = String::from_str(rest.substring_char(0, j));
                        proof {
                            assert(pfx@ =~= input@.take(i as int));
                            assert(tag@ =~= rest@.take(j as int));
                        }
                        Ok(Expr::Unit { pfx: Some(pfx), tag, pow: v, den })
                    },
                    None => Err(ParseError::WrongPow(String::from_str(powpart))),
                }
            },
        }
    } else {
        Ok(Expr::Unit { pfx: None, tag: String::new(), pow: 1, den })
    }
}

/// What parsing a `*`-joined list of unit entries yields.
pub open spec fn parse_units_s(s: Seq<char>, den: bool) -> Result<Seq<ExprS>, ParseErrorS>
    decreases s.len(),
    via parse_units_s_decreases
{
    let mi = find_char(s, '*');
    if mi < 0 {
        match parse_unit_s(s, den) {
            Ok(e) => Ok(seq![e]),
            Err(pe) => Err(pe),
        }
    } else {
        match parse_unit_s(s.take(mi), den) {
            Ok(e) => match parse_units_s(s.skip(mi + 1), den) {
                Ok(rest) => Ok(seq![e] + rest),
                Err(pe) => Err(pe),
            },
            Err(pe) => Err(pe),
        }
    }
}

#[via_fn]
proof fn parse_units_s_decreases(s: Seq<char>, den: bool) {
    lemma_find_char(s, '*');
}

/// Parses a `*`-joined list of unit entries into expression nodes.
fn parse_units(input: &str, den: bool) -> (r: Result<Vec<Expr>, ParseError>)
    ensures
        match r {
            Ok(v) => parse_units_s(input@, den) == Ok::<Seq<ExprS>, ParseErrorS>(
                crate::ast::exprs_view(v@),
            ),
            Err(pe) => parse_units_s(input@, den) == Err::<Seq<ExprS>, ParseErrorS>(pe@),
        },
    decreases input@.len(),
{
    broadcast use lemma_find_char, crate::ast::lemma_exprs_view_len, crate::ast::lemma_exprs_view_index;

    let len = input.unicode_len();
    match char_find(input, '*') {
        None => {
            match parse_unit(input, den) {
                Ok(e) => {
                    let mut v: Vec<Expr> = Vec::new();
                    v.push(e);
                    proof {
                        assert(crate::ast::exprs_view(v@) =~= seq![v@[0]@]);
                    }
                    Ok(v)
                },
                Err(pe) => Err(pe),
            }
        },
        Some(mi) => {
            let head = input.substring_char(0, mi);
            let tail = input.substring_char(mi + 1, len);
            proof {
                assert(head@ =~= input@.take(mi as int));
                assert(tail@ =~= input@.skip(mi + 1 as int));
            }
            match parse_unit(head, den) {
                Ok(e) => {
                    match parse_units(tail, den) {
                        Ok(rest) => {
                            let mut v: Vec<Expr> = Vec::new();
                            v.push(e);
                            let ghost ev = v@[0]@;
                            let mut rest = rest;
                            let ghost pv = v@;
                            let ghost rv = rest@;
                            let ghost restv = crate::ast::exprs_view(rest@);
                            v.append(&mut rest);
                            proof {
                                assert(v@ == pv + rv);
                                assert forall|k: int|
                                    0 <= k < crate::ast::exprs_view(v@).len() implies crate::ast::exprs_view(
                                    v@,
                                )[k] == (seq![ev] + restv)[k] by {
                                    if k == 0 {
                                        assert(v@[0] == pv[0]);
                                    } else {
                                        assert(v@[k] == rv[k - 1]);
                                    }
                                }
                                assert(crate::ast::exprs_view(v@) =~= seq![ev] + restv);
                            }
                            Ok(v)
                        },
                        Err(pe) => Err(pe),
                    }
                },
                Err(pe) => Err(pe),
            }
        },
    }
}


/// What parsing a fraction expression yields: the part before the first `/`
/// is the numerator, the part between the first and second `/` (or the end)
/// is the denominator; anything after a second `/` is ignored.
pub open spec fn parse_expr_s(s: Seq<char>) -> Result<ExprS, ParseErrorS> {
    let di = find_char(s, '/');
    if di < 0 {
        match parse_units_s(s, false) {
            Ok(up) => Ok(ExprS::Fraction(up, Seq::empty())),
            Err(pe) => Err(pe),
        }
    } else {
        let rest = s.skip(di + 1);
        let d2 = find_char(rest, '/');
        let down_part = if d2 < 0 {
            rest
        } else {
            rest.take(d2)
        };
        match parse_units_s(s.take(di), false) {
            Ok(up) => match parse_units_s(down_part, true) {
                Ok(down) => Ok(ExprS::Fraction(up, down)),
                Err(pe) => Err(pe),
            },
            Err(pe) => Err(pe),
        }
    }
}

/// Parses a fraction expression: units joined by `*`, with an optional `/`
/// before the denominator's units.
pub fn parse_expr(input: &str) -> (r: Result<Expr, ParseError>)
    ensures
        match r {
            Ok(e) => parse_expr_s(input@) == Ok::<ExprS, ParseErrorS>(e@),
            Err(pe) => parse_expr_s(input@) == Err::<ExprS, ParseErrorS>(pe@),
        },
{
    broadcast use lemma_find_char;

    let len = input.unicode_len();
    match char_find(input, '/') {
        None => {
            match parse_units(input, false) {
                Ok(up) => {
                    let r = Expr::Fraction { up, down: Vec::new() };
                    proof {
                        assert(crate::ast::exprs_view(Seq::<Expr>::empty()) =~= Seq::<
                            ExprS,
                        >::empty());
                        assert(r@ matches ExprS::Fraction(a, b) && b =~= Seq::<ExprS>::empty());
                    }
                    Ok(r)
                },
                Err(pe) => Err(pe),
            }
        },
        Some(di) => {
            let up_part = input.substring_char(0, di);
            let rest = input.substring_char(di + 1, len);
            proof {
                assert(up_part@ =~= input@.take(di as int));
                assert(rest@ =~= input@.skip(di + 1 as int));
            }
            let restlen = rest.unicode_len();
            let down_part = match char_find(rest, '/') {
                None => rest,
                Some(d2) => rest.substring_char(0, d2),
            };
            proof {
                let d2 = find_char(rest@, '/');
                if d2 >= 0 {
                    assert(down_part@ =~= rest@.take(d2));
                }
            }
            match parse_units(up_part, false) {
                Ok(up) => {
                    match parse_units(down_part, true) {
                        Ok(down) => Ok(Expr::Fraction { up, down }),
                        Err(pe) => Err(pe),
                    }
                },
                Err(pe) => Err(pe),
            }
        },
    }
}

/// What a conversion statement needs of its raw text so that it can be taken
/// apart: a space after the leading value, a value that reads as a float, and
/// the separator inside the token after the first space.  The validation
/// entry point checks all of it for inputs with exactly one space.
pub open spec fn conv_stmt_ok(s: Seq<char>) -> bool {
    find_sep(s) >= 0 ==> {
        let si = find_char(s, ' ');
        &&& si >= 0
        &&& is_float_lit(s.take(si))
        &&& find_sep(second_token(s)) >= 0
    }
}

/// The token after the first space: up to the second space, or to the end.
pub open spec fn second_token(s: Seq<char>) -> Seq<char> {
    let si = find_char(s, ' ');
    let s2 = s.skip(si + 1);
    let sp2 = find_char(s2, ' ');
    if sp2 < 0 {
        s2
    } else {
        s2.take(sp2)
    }
}

/// What parsing a statement yields: text holding the conversion separator is
/// a conversion of the leading value between the two unit expressions around
/// the separator; anything else is a decomposition.
pub open spec fn parse_stmt_s(s: Seq<char>) -> Result<StmtS, ParseErrorS> {
    if find_sep(s) >= 0 {
        let si = find_char(s, ' ');
        let val = s.take(si);
        let tok = second_token(s);
        let ci = find_sep(tok);
        match parse_expr_s(tok.take(ci)) {
            Ok(lft) => match parse_expr_s(tok.skip(ci + 2)) {
                Ok(rht) => Ok(
                    StmtS::Conversation(ExprS::Convert(val, Box::new(lft), Box::new(rht))),
                ),
                Err(pe) => Err(pe),
            },
            Err(pe) => Err(pe),
        }
    } else {
        match parse_expr_s(s) {
            Ok(e) => Ok(StmtS::Decomposition(e)),
            Err(pe) => Err(pe),
        }
    }
}

/// Parses one statement.  The caller keeps inputs to what the language
/// allows: when the text holds the conversion separator, a leading float
/// value, one space, and the separator after it (`enter_validation` checks
/// exactly this).
pub fn parse_stmt(input: &str) -> (r: Result<Stmt, ParseError>)
    requires
        conv_stmt_ok(input@),
    ensures
        match r {
            Ok(st) => parse_stmt_s(input@) == Ok::<StmtS, ParseErrorS>(st@),
            Err(pe) => parse_stmt_s(input@) == Err::<StmtS, ParseErrorS>(pe@),
        },
{
    broadcast use lemma_find_char;

    let len = input.unicode_len();
    match sep_find(input) {
        Some(_) => {
            let si = match char_find(input, ' ') {
                Some(i) => i,
                None => {
                    proof {
                        assert(false);
                    }
                    return Err(ParseError::ExactlyOneExprSeparator());
                },
            };
            let val = String::from_str(input.substring_char(0, si));
            let after = input.substring_char(si + 1, len);
            proof {
                assert(val@ =~= input@.take(si as int));
                assert(after@ =~= input@.skip(si + 1 as int));
            }
            let afterlen = after.unicode_len();
            let tok = match char_find(after, ' ') {
                None => after,
                Some(sp2) => after.substring_char(0, sp2),
            };
            proof {
                assert(tok@ =~= second_token(input@));
            }
            let ci = match sep_find(tok) {
                Some(c) => c,
                None => {
                    proof {
                        assert(false);
                    }
                    return Err(ParseError::ExactlyOneExprSeparator());
                },
            };
            let toklen = tok.unicode_len();
            let lft = tok.substring_char(0, ci);
            let rht = tok.substring_char(ci + 2, toklen);
            proof {
                assert(lft@ =~= tok@.take(ci as int));
                assert(rht@ =~= tok@.skip(ci + 2 as int));
            }
            match parse_expr(lft) {
                Ok(le) => {
                    match parse_expr(rht) {
                        Ok(re) => Ok(
                            Stmt::Conversation(Expr::Convert(val, Box::new(le), Box::new(re))),
                        ),
                        Err(pe) => Err(pe),
                    }
                },
                Err(pe) => Err(pe),
            }
        },
        None => {
            match parse_expr(input) {
                Ok(e) => Ok(Stmt::Decomposition(e)),
                Err(pe) => Err(pe),
            }
        },
    }
}

/// What validating raw input yields: at most one space; with one space, the
/// text before it must read as a float and the text after it must hold the
/// separator exactly once.
pub open spec fn enter_validation_s(s: Seq<char>) -> Result<Seq<char>, ParseErrorS> {
    let ws = count_char(s, ' ');
    if ws > 1 {
        Err(ParseErrorS::TooMuchSpaces(ws as int))
    } else if ws == 1 {
        let si = find_char(s, ' ');
        if !is_float_lit(s.take(si)) {
            Err(ParseErrorS::ValueWrongBegin(s))
        } else if count_sep(s.skip(si + 1)) != 1 {
            Err(ParseErrorS::ExactlyOneExprSeparator)
        } else {
            Ok(s)
        }
    } else {
        Ok(s)
    }
}

/// Validates raw input before parsing: zero or one space; with one space, a
/// float value before it and exactly one conversion separator after it.
pub fn enter_validation<'a>(input: &'a str) -> (r: Result<&'a str, ParseError>)
    ensures
        match r {
            Ok(out) => enter_validation_s(input@) == Ok::<Seq<char>, ParseErrorS>(out@) && out@
                == input@,
            Err(pe) => enter_validation_s(input@) == Err::<Seq<char>, ParseErrorS>(pe@),
        },
{
    broadcast use lemma_find_char;

    let len = input.unicode_len();
    let ws = char_count(input, ' ');
    if ws > 1 {
        return Err(ParseError::TooMuchSpaces(ws));
    }
    if ws == 1 {
        let si = match char_find(input, ' ') {
            Some(i) => i,
            None => {
                proof {
                    lemma_count_find(input@, ' ');
                }
                return Err(ParseError::ExactlyOneExprSeparator());
            },
        };
        let head = input.substring_char(0, si);
        proof {
            assert(head@ =~= input@.take(si as int));
        }
        if !is_float_literal(head) {
            return Err(ParseError::ValueWrongBegin(String::from_str(input)));
        }
        let tail = input.substring_char(si + 1, len);
        proof {
            assert(tail@ =~= input@.skip(si + 1 as int));
        }
        if sep_count(tail) != 1 {
            return Err(ParseError::ExactlyOneExprSeparator());
        }
    }
    Ok(input)
}

} // verus!
