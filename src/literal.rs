//! The small grammars: boolean literals, non-negative integers, real number
//! literals, species symbols, and the class of a coordinate-system line.
use vstd::prelude::*;
use crate::error::{Kind, UnsignedError};
use crate::text::{is_ascii_whitespace, is_ws, string_of};

verus! {

/// The boolean literal that `s` spells: an optional dot, then `t` or `f` in
/// either case; the rest is ignored.
pub open spec fn logical_value(s: Seq<char>) -> Option<bool> {
    let t = if s.len() > 0 && s[0] == '.' {
        s.drop_first()
    } else {
        s
    };
    if t.len() > 0 && (t[0] == 't' || t[0] == 'T') {
        Some(true)
    } else if t.len() > 0 && (t[0] == 'f' || t[0] == 'F') {
        Some(false)
    } else {
        None
    }
}

/// Reads a boolean literal; the error holds the token.
pub fn parse_logical(s: &[char]) -> (r: Result<bool, Kind>)
    ensures
        match logical_value(s@) {
            Some(b) => r == Ok::<bool, Kind>(b),
            None => r is Err && r->Err_0 is ParseLogical && r->Err_0->ParseLogical_0@ == s@,
        },
{
    let i: usize = if s.len() > 0 && s[0] == '.' {
        1
    } else {
        0
    };
    if i < s.len() && (s[i] == 't' || s[i] == 'T') {
        Ok(true)
    } else if i < s.len() && (s[i] == 'f' || s[i] == 'F') {
        Ok(false)
    } else {
        Err(Kind::ParseLogical(string_of(s)))
    }
}

pub open spec fn is_digit(c: char) -> bool {
    '0' <= c <= '9'
}

pub open spec fn all_digits(s: Seq<char>) -> bool {
    forall|i: int| 0 <= i < s.len() ==> is_digit(#[trigger] s[i])
}

/// The number that a string of decimal digits spells.
pub open spec fn digits_value(s: Seq<char>) -> nat
    decreases s.len(),
{
    if s.len() == 0 {
        0
    } else {
        digits_value(s.drop_last()) * 10 + (s.last() as nat - 48) as nat
    }
}

/// The non-negative integer that `s` spells: one or more decimal digits, with
/// no sign, whose value fits in 64 bits.
pub open spec fn unsigned_value(s: Seq<char>) -> Option<u64> {
    if s.len() > 0 && all_digits(s) && digits_value(s) <= u64::MAX {
        Some(digits_value(s) as u64)
    } else {
        None
    }
}

proof fn lemma_digits_value_grows(s: Seq<char>, i: int)
    requires
        0 <= i <= s.len(),
        all_digits(s),
    ensures
        digits_value(s.subrange(0, i)) <= digits_value(s),
    decreases s.len() - i,
{
    if i < s.len() {
        lemma_digits_value_grows(s, i + 1);
        let p = s.subrange(0, i + 1);
        assert(p.drop_last() =~= s.subrange(0, i));
        assert(is_digit(s[i]));
    } else {
        assert(s.subrange(0, i) =~= s);
    }
}

/// Reads a non-negative integer; a leading `+` is refused.
pub fn parse_unsigned(s: &[char]) -> (r: Result<u64, UnsignedError>)
    ensures
        match unsigned_value(s@) {
            Some(v) => r == Ok::<u64, UnsignedError>(v),
            None => r is Err,
        },
        s@.len() > 0 && s@[0] == '+' ==> r == Err::<u64, UnsignedError>(UnsignedError::LeadingPlus),
        s@.len() == 0 ==> r == Err::<u64, UnsignedError>(UnsignedError::Empty),
{
    if s.len() > 0 && s[0] == '+' {
        return Err(UnsignedError::LeadingPlus);
    }
    if s.len() == 0 {
        return Err(UnsignedError::Empty);
    }
    let mut acc: u64 = 0;
    let mut i: usize = 0;
    while i < s.len()
        invariant
            i <= s@.len(),
            s@.len() > 0,
            s@[0] != '+',
            all_digits(s@.subrange(0, i as int)),
            acc as nat == digits_value(s@.subrange(0, i as int)),
        decreases s@.len() - i,
    {
        let c = s[i];
        if !('0' <= c && c <= '9') {
            return Err(UnsignedError::InvalidDigit);
        }
        let d = (c as u32 - 48) as u64;
        proof {
            let p = s@.subrange(0, i + 1);
            assert(p.drop_last() =~= s@.subrange(0, i as int));
            assert(all_digits(p));
        }
        if acc > (u64::MAX - d) / 10 {
            proof {
                let p = s@.subrange(0, i + 1);
                assert(digits_value(p) > u64::MAX) by (nonlinear_arith)
                    requires
                        digits_value(p) == acc * 10 + d,
                        acc > (u64::MAX - d) / 10,
                        d <= 9,
                ;
                if all_digits(s@) {
                    lemma_digits_value_grows(s@, i + 1);
                }
            }
            return Err(UnsignedError::Overflow);
        }
        proof {
            assert(acc * 10 + d <= u64::MAX) by (nonlinear_arith)
                requires
                    acc <= (u64::MAX - d) / 10,
                    d <= 9,
            ;
        }
        acc = acc * 10 + d;
        i = i + 1;
    }
    proof {
        assert(s@.subrange(0, s@.len() as int) =~= s@);
    }
    Ok(acc)
}

/// The ASCII lower case of a character.
pub open spec fn lower(c: char) -> char {
    if 'A' <= c <= 'Z' {
        (((c as u8) + 32) as u8) as char
    } else {
        c
    }
}

/// True when `s` is `w` (a lower-case word) in any mix of case.
pub open spec fn is_word_nocase(s: Seq<char>, w: Seq<char>) -> bool {
    s.len() == w.len() && forall|i: int| 0 <= i < s.len() ==> lower(#[trigger] s[i]) == w[i]
}

/// The first index from `i` on that holds a character of `c1`, `c2`, or the length.
pub open spec fn find2(s: Seq<char>, i: int, c1: char, c2: char) -> int
    decreases s.len() - i,
{
    if 0 <= i < s.len() && s[i] != c1 && s[i] != c2 {
        find2(s, i + 1, c1, c2)
    } else {
        i
    }
}

/// Where the exponent marker of a number stands, or its length.
pub open spec fn exp_at(s: Seq<char>) -> int {
    find2(s, 0, 'e', 'E')
}

/// True of the part before the exponent: digits with at most one dot, and at
/// least one digit.
pub open spec fn is_mantissa(m: Seq<char>) -> bool {
    let d = find2(m, 0, '.', '.');
    if d == m.len() {
        m.len() > 0 && all_digits(m)
    } else {
        let l = m.subrange(0, d);
        let r = m.subrange(d + 1, m.len() as int);
        all_digits(l) && all_digits(r) && l.len() + r.len() > 0
    }
}

/// True of the part after the exponent marker: an optional sign and digits.
pub open spec fn is_exponent(x: Seq<char>) -> bool {
    let d = if x.len() > 0 && (x[0] == '+' || x[0] == '-') {
        x.drop_first()
    } else {
        x
    };
    d.len() > 0 && all_digits(d)
}

/// True of an unsigned decimal number, with an optional exponent.
pub open spec fn is_number(s: Seq<char>) -> bool {
    let e = exp_at(s);
    is_mantissa(s.subrange(0, e)) && (e == s.len() || is_exponent(
        s.subrange(e + 1, s.len() as int),
    ))
}

/// A real literal without its sign, if it has one.
pub open spec fn unsigned_part(s: Seq<char>) -> Seq<char> {
    if s.len() > 0 && (s[0] == '+' || s[0] == '-') {
        s.drop_first()
    } else {
        s
    }
}

pub open spec fn is_nan_word(u: Seq<char>) -> bool {
    is_word_nocase(u, "nan"@)
}

pub open spec fn is_inf_word(u: Seq<char>) -> bool {
    is_word_nocase(u, "inf"@) || is_word_nocase(u, "infinity"@)
}

/// True of the literals that a 64-bit float is read from: an optional sign,
/// then `inf`, `infinity` or `nan` in any case, or a decimal number.
pub open spec fn is_real(s: Seq<char>) -> bool {
    let u = unsigned_part(s);
    is_nan_word(u) || is_inf_word(u) || is_number(u)
}

/// True of a real literal whose digits are all zero. A literal with nonzero
/// digits whose value is too small for a 64-bit float (such as `1e-400`)
/// is not zero here: only the float itself can tell.
pub open spec fn is_zero_real(s: Seq<char>) -> bool {
    let u = unsigned_part(s);
    &&& is_number(u)
    &&& forall|i: int| 0 <= i < exp_at(u) ==> (#[trigger] u[i] == '0' || u[i] == '.')
}

/// True of a real literal with a minus sign.
pub open spec fn is_negative_real(s: Seq<char>) -> bool {
    s.len() > 0 && s[0] == '-'
}

fn find2_exec(s: &[char], start: usize, c1: char, c2: char) -> (r: usize)
    requires
        start <= s@.len(),
    ensures
        r as int == find2(s@, start as int, c1, c2),
        start <= r <= s@.len(),
{
    let mut i = start;
    while i < s.len() && s[i] != c1 && s[i] != c2
        invariant
            start <= i <= s@.len(),
            find2(s@, i as int, c1, c2) == find2(s@, start as int, c1, c2),
        decreases s@.len() - i,
    {
        i = i + 1;
    }
    i
}

fn digits_between(s: &[char], start: usize, end: usize) -> (r: bool)
    requires
        start <= end <= s@.len(),
    ensures
        r == all_digits(s@.subrange(start as int, end as int)),
{
    let mut i = start;
    while i < end
        invariant
            start <= i <= end <= s@.len(),
            all_digits(s@.subrange(start as int, i as int)),
        decreases end - i,
    {
        if !('0' <= s[i] && s[i] <= '9') {
            proof {
                let t = s@.subrange(start as int, end as int);
                assert(!is_digit(t[i - start]));
            }
            return false;
        }
        i = i + 1;
        proof {
            let t = s@.subrange(start as int, i as int);
            assert forall|j: int| 0 <= j < t.len() implies is_digit(#[trigger] t[j]) by {
                if j < t.len() - 1 {
                    assert(t[j] == s@.subrange(start as int, i - 1)[j]);
                }
            }
        }
    }
    true
}

fn is_word_nocase_exec(s: &[char], start: usize, w: &str) -> (r: bool)
    requires
        start <= s@.len(),
    ensures
        r == is_word_nocase(s@.subrange(start as int, s@.len() as int), w@),
{
    let ws = crate::text::chars_of(w);
    let n = s.len();
    let u = n - start;
    if u != ws.len() {
        return false;
    }
    let mut i: usize = 0;
    while i < u
        invariant
            u == s@.len() - start,
            n == s@.len(),
            start <= s@.len(),
            u == ws@.len(),
            ws@ == w@,
            i <= u,
            forall|j: int|
                0 <= j < i ==> lower(#[trigger] s@.subrange(start as int, s@.len() as int)[j])
                    == ws@[j],
        decreases u - i,
    {
        let c = s[start + i];
        let l = if 'A' <= c && c <= 'Z' {
            ((c as u8) + 32) as char
        } else {
            c
        };
        proof {
            assert(s@.subrange(start as int, s@.len() as int)[i as int] == c);
        }
        if l != ws[i] {
            return false;
        }
        i = i + 1;
    }
    true
}

fn is_number_exec(s: &[char], start: usize) -> (r: bool)
    requires
        start <= s@.len(),
    ensures
        r == is_number(s@.subrange(start as int, s@.len() as int)),
{
    let ghost u = s@.subrange(start as int, s@.len() as int);
    let e = find2_exec(s, start, 'e', 'E');
    proof {
        lemma_find2_shift(s@, start as int, start as int, 'e', 'E');
    }
    let ghost m = u.subrange(0, e - start);
    proof {
        assert(m =~= s@.subrange(start as int, e as int));
    }
    let d = find2_exec(s, start, '.', '.');
    let d = if d > e {
        e
    } else {
        d
    };
    proof {
        lemma_find2_shift(s@, start as int, start as int, '.', '.');
        lemma_find2_prefix(u, m, 0, '.', '.');
    }
    let mant = if d == e {
        e > start && digits_between(s, start, e)
    } else {
        let l = digits_between(s, start, d);
        let r = digits_between(s, d + 1, e);
        proof {
            assert(m.subrange(0, d - start) =~= s@.subrange(start as int, d as int));
            assert(m.subrange(d - start + 1, m.len() as int) =~= s@.subrange(d + 1, e as int));
        }
        l && r && (d - start) + (e - d - 1) > 0
    };
    if !mant {
        return false;
    }
    if e == s.len() {
        return true;
    }
    let ghost x = u.subrange(e - start + 1, u.len() as int);
    proof {
        assert(x =~= s@.subrange(e + 1, s@.len() as int));
    }
    let f = if e + 1 < s.len() && (s[e + 1] == '+' || s[e + 1] == '-') {
        e + 2
    } else {
        e + 1
    };
    proof {
        if e + 1 < s.len() && (s@[e + 1] == '+' || s@[e + 1] == '-') {
            assert(x.drop_first() =~= s@.subrange(f as int, s@.len() as int));
        }
    }
    f < s.len() && digits_between(s, f, s.len())
}

proof fn lemma_find2_shift(s: Seq<char>, start: int, i: int, c1: char, c2: char)
    requires
        0 <= start <= i <= s.len(),
    ensures
        find2(s.subrange(start, s.len() as int), i - start, c1, c2) + start == find2(
            s,
            i,
            c1,
            c2,
        ),
    decreases s.len() - i,
{
    let u = s.subrange(start, s.len() as int);
    if i < s.len() {
        assert(u[i - start] == s[i]);
        lemma_find2_shift(s, start, i + 1, c1, c2);
    }
}

proof fn lemma_find2_prefix(u: Seq<char>, m: Seq<char>, i: int, c1: char, c2: char)
    requires
        0 <= i <= m.len() <= u.len(),
        m == u.subrange(0, m.len() as int),
    ensures
        find2(m, i, c1, c2) == if find2(u, i, c1, c2) > m.len() {
            m.len() as int
        } else {
            find2(u, i, c1, c2)
        },
    decreases m.len() - i,
{
    if i < m.len() {
        assert(m[i] == u[i]);
        lemma_find2_prefix(u, m, i + 1, c1, c2);
    } else {
        lemma_find2_ge(u, i, c1, c2);
    }
}

proof fn lemma_find2_ge(s: Seq<char>, i: int, c1: char, c2: char)
    requires
        0 <= i <= s.len(),
    ensures
        i <= find2(s, i, c1, c2) <= s.len(),
    decreases s.len() - i,
{
    if i < s.len() && s[i] != c1 && s[i] != c2 {
        lemma_find2_ge(s, i + 1, c1, c2);
    }
}

/// True when `s` is a real literal, as a 64-bit float reads it.
pub fn is_real_literal(s: &[char]) -> (r: bool)
    ensures
        r == is_real(s@),
{
    let start: usize = if s.len() > 0 && (s[0] == '+' || s[0] == '-') {
        1
    } else {
        0
    };
    proof {
        if start == 1 {
            assert(s@.drop_first() =~= s@.subrange(1, s@.len() as int));
        } else {
            assert(s@ =~= s@.subrange(0, s@.len() as int));
        }
    }
    is_word_nocase_exec(s, start, "nan") || is_word_nocase_exec(s, start, "inf")
        || is_word_nocase_exec(s, start, "infinity") || is_number_exec(s, start)
}

/// What a scale token means.
#[derive(Debug, Clone, Copy, PartialEq, Eq, Structural)]
pub enum ScaleSign {
    NotReal,
    Nan,
    Zero,
    Negative,
    Positive,
}

/// The meaning of a scale token, judged on its text: its sign, and whether
/// its digits are all zero or it spells `nan`.
pub open spec fn scale_sign(s: Seq<char>) -> ScaleSign {
    if !is_real(s) {
        ScaleSign::NotReal
    } else if is_nan_word(unsigned_part(s)) {
        ScaleSign::Nan
    } else if is_zero_real(s) {
        ScaleSign::Zero
    } else if is_negative_real(s) {
        ScaleSign::Negative
    } else {
        ScaleSign::Positive
    }
}

/// Tells a real literal's sign, and whether it is zero or not a number.
pub fn classify_scale(s: &[char]) -> (r: ScaleSign)
    ensures
        r == scale_sign(s@),
{
    if !is_real_literal(s) {
        return ScaleSign::NotReal;
    }
    let start: usize = if s.len() > 0 && (s[0] == '+' || s[0] == '-') {
        1
    } else {
        0
    };
    proof {
        if start == 1 {
            assert(s@.drop_first() =~= s@.subrange(1, s@.len() as int));
        } else {
            assert(s@ =~= s@.subrange(0, s@.len() as int));
        }
    }
    if is_word_nocase_exec(s, start, "nan") {
        return ScaleSign::Nan;
    }
    let ghost u = unsigned_part(s@);
    let num = is_number_exec(s, start);
    let e = find2_exec(s, start, 'e', 'E');
    proof {
        lemma_find2_shift(s@, start as int, start as int, 'e', 'E');
    }
    let mut zero = num;
    let mut i = start;
    while i < e
        invariant
            start <= i <= e <= s@.len(),
            u == s@.subrange(start as int, s@.len() as int),
            e - start == exp_at(u),
            zero == (num && forall|j: int| 0 <= j < i - start ==> (#[trigger] u[j] == '0' || u[j] == '.')),
        decreases e - i,
    {
        proof {
            assert(u[i - start] == s@[i as int]);
        }
        if s[i] != '0' && s[i] != '.' {
            zero = false;
        }
        i = i + 1;
    }
    if zero {
        ScaleSign::Zero
    } else if s.len() > 0 && s[0] == '-' {
        ScaleSign::Negative
    } else {
        ScaleSign::Positive
    }
}

/// True of a token that can stand on the species line: not empty, no
/// whitespace, and no digit first.
pub open spec fn is_symbol(s: Seq<char>) -> bool {
    &&& s.len() > 0
    &&& forall|i: int| 0 <= i < s.len() ==> !is_ws(#[trigger] s[i])
    &&& !is_digit(s[0])
}

pub fn is_valid_symbol_for_symbol_line(s: &[char]) -> (r: bool)
    ensures
        r == is_symbol(s@),
{
    if s.len() == 0 {
        return false;
    }
    let mut i: usize = 0;
    while i < s.len()
        invariant
            i <= s@.len(),
            forall|j: int| 0 <= j < i ==> !is_ws(#[trigger] s@[j]),
        decreases s@.len() - i,
    {
        if is_ascii_whitespace(s[i]) {
            return false;
        }
        i = i + 1;
    }
    !('0' <= s[0] && s[0] <= '9')
}

/// True of the characters that Unicode counts as white space.
pub open spec fn is_unicode_ws(c: char) -> bool {
    ||| '\u{9}' <= c <= '\u{d}'
    ||| c == ' '
    ||| c == '\u{85}'
    ||| c == '\u{a0}'
    ||| c == '\u{1680}'
    ||| '\u{2000}' <= c <= '\u{200a}'
    ||| c == '\u{2028}'
    ||| c == '\u{2029}'
    ||| c == '\u{202f}'
    ||| c == '\u{205f}'
    ||| c == '\u{3000}'
}

pub fn is_unicode_whitespace(c: char) -> (r: bool)
    ensures
        r == is_unicode_ws(c),
{
    ('\u{9}' <= c && c <= '\u{d}') || c == ' ' || c == '\u{85}' || c == '\u{a0}' || c
        == '\u{1680}' || ('\u{2000}' <= c && c <= '\u{200a}') || c == '\u{2028}' || c
        == '\u{2029}' || c == '\u{202f}' || c == '\u{205f}' || c == '\u{3000}'
}

/// True when a line holds nothing but white space.
pub open spec fn is_trim_empty(s: Seq<char>) -> bool {
    forall|i: int| 0 <= i < s.len() ==> is_unicode_ws(#[trigger] s[i])
}

pub fn trim_is_empty(s: &[char]) -> (r: bool)
    ensures
        r == is_trim_empty(s@),
{
    let mut i: usize = 0;
    while i < s.len()
        invariant
            i <= s@.len(),
            forall|j: int| 0 <= j < i ==> is_unicode_ws(#[trigger] s@[j]),
        decreases s@.len() - i,
    {
        if !is_unicode_whitespace(s[i]) {
            return false;
        }
        i = i + 1;
    }
    true
}

/// The first index from `i` on that holds no white space, or the length.
pub open spec fn skip_unicode_ws(s: Seq<char>, i: int) -> int
    decreases s.len() - i,
{
    if 0 <= i < s.len() && is_unicode_ws(s[i]) {
        skip_unicode_ws(s, i + 1)
    } else {
        i
    }
}

/// The first character of a line that is no white space, if any.
pub fn first_after_trim(s: &[char]) -> (r: Option<char>)
    ensures
        skip_unicode_ws(s@, 0) < s@.len() ==> r == Some(s@[skip_unicode_ws(s@, 0)]),
        skip_unicode_ws(s@, 0) >= s@.len() ==> r is None,
{
    let mut i: usize = 0;
    while i < s.len() && is_unicode_whitespace(s[i])
        invariant
            i <= s@.len(),
            skip_unicode_ws(s@, i as int) == skip_unicode_ws(s@, 0),
        decreases s@.len() - i,
    {
        i = i + 1;
    }
    if i < s.len() {
        Some(s[i])
    } else {
        None
    }
}

/// The class of a coordinate-system line, by its first character.
#[derive(Debug, Clone, Copy, PartialEq, Eq, Structural)]
pub enum CoordLineType {
    /// The first character is one of `cCkK`.
    Cartesian,
    /// The first character is one of `dD`.
    Direct,
    /// Whitespace, then something else: taken as direct, but odd.
    IndentedText,
    /// Nothing but whitespace: direct, or trailing blank lines.
    EmptyOrWhitespace,
    /// Any other first character: taken as direct.
    SuspiciouslyDirect,
}

pub open spec fn coord_line_type(s: Seq<char>) -> CoordLineType {
    if is_trim_empty(s) {
        CoordLineType::EmptyOrWhitespace
    } else {
        let c = s[0];
        if c == 'c' || c == 'C' || c == 'k' || c == 'K' {
            CoordLineType::Cartesian
        } else if c == 'd' || c == 'D' {
            CoordLineType::Direct
        } else if is_ws(c) {
            CoordLineType::IndentedText
        } else {
            CoordLineType::SuspiciouslyDirect
        }
    }
}

/// Classifies a coordinate-system line; it never fails.
pub fn classify_coord_line(s: &[char]) -> (r: CoordLineType)
    ensures
        r == coord_line_type(s@),
{
    if trim_is_empty(s) {
        return CoordLineType::EmptyOrWhitespace;
    }
    let c = s[0];
    if c == 'c' || c == 'C' || c == 'k' || c == 'K' {
        CoordLineType::Cartesian
    } else if c == 'd' || c == 'D' {
        CoordLineType::Direct
    } else if is_ascii_whitespace(c) {
        CoordLineType::IndentedText
    } else {
        CoordLineType::SuspiciouslyDirect
    }
}

} // verus!
