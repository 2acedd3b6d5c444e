//! The one error type of the parser: what went wrong, and where.
use vstd::prelude::*;
use crate::text::{append_chars, chars_of, string_of};

verus! {

/// Why a document was refused, when it was no malformed literal.
#[derive(Debug, Clone, Copy, PartialEq, Eq, Structural)]
pub enum Reason {
    UnexpectedEof,
    ExpectedEof,
    ExpectedScale,
    ScaleZero,
    ScaleNan,
    TooManyFloats,
    ExpectedLatticeComponents,
    ExpectedElementOrCount,
    InvalidSymbol,
    InconsistentCounts,
    NoAtoms,
    TooManyAtoms,
    ExpectedCoordinates,
    ExpectedFlags,
}

/// Why a token is no non-negative integer.
#[derive(Debug, Clone, Copy, PartialEq, Eq, Structural)]
pub enum UnsignedError {
    LeadingPlus,
    Empty,
    InvalidDigit,
    Overflow,
}

/// The class of an error.
#[derive(Debug, Clone, PartialEq, Eq)]
pub enum Kind {
    /// A token that is no real number.
    ParseFloat,
    /// A token that is no boolean literal; it holds the token.
    ParseLogical(String),
    /// A token that is no non-negative integer.
    ParseUnsigned(UnsignedError),
    /// Any other reason.
    Generic(Reason),
}

/// An error met while parsing, with its place: a zero-based line, and a
/// zero-based column where it concerns a single token.
#[derive(Debug, Clone, PartialEq, Eq)]
pub struct ParseError {
    pub kind: Kind,
    pub path: Option<String>,
    pub line: Option<usize>,
    pub col: Option<usize>,
}

/// True of an error with the given kind and place, and no path.
pub open spec fn is_error_at(e: ParseError, kind: Kind, line: usize, col: Option<usize>) -> bool {
    &&& e.kind == kind
    &&& e.path is None
    &&& e.line == Some(line)
    &&& e.col == col
}

pub open spec fn digit_char(d: nat) -> char {
    ((48 + d) as u8) as char
}

/// The decimal digits of a number, without leading zeros.
pub open spec fn dec(n: nat) -> Seq<char>
    decreases n,
{
    if n < 10 {
        seq![digit_char(n)]
    } else {
        dec(n / 10).push(digit_char(n % 10))
    }
}

/// The decimal digits of `n`.
pub fn decimal(n: u128) -> (r: Vec<char>)
    ensures
        r@ == dec(n as nat),
    decreases n,
{
    if n < 10 {
        let d = ((48 + n) as u8) as char;
        let mut v: Vec<char> = Vec::new();
        v.push(d);
        proof {
            assert(v@ =~= seq![digit_char(n as nat)]);
        }
        v
    } else {
        let mut v = decimal(n / 10);
        let d = ((48 + n % 10) as u8) as char;
        v.push(d);
        v
    }
}

pub open spec fn reason_text(r: Reason) -> Seq<char> {
    match r {
        Reason::UnexpectedEof => "unexpected end of file"@,
        Reason::ExpectedEof => "expected end of file"@,
        Reason::ExpectedScale => "expected scale"@,
        Reason::ScaleZero => "scale cannot be zero"@,
        Reason::ScaleNan => "scale cannot be nan"@,
        Reason::TooManyFloats => "too many floats on scale line (expected just one)"@,
        Reason::ExpectedLatticeComponents => "expected three components for lattice vector"@,
        Reason::ExpectedElementOrCount => "expected at least one element or count"@,
        Reason::InvalidSymbol => "invalid symbol"@,
        Reason::InconsistentCounts => "Inconsistent number of counts"@,
        Reason::NoAtoms => "There must be at least one atom."@,
        Reason::TooManyAtoms => "too many atoms"@,
        Reason::ExpectedCoordinates => "expected 3 coordinates"@,
        Reason::ExpectedFlags => "expected 3 boolean flags"@,
    }
}

pub open spec fn unsigned_text(u: UnsignedError) -> Seq<char> {
    match u {
        UnsignedError::LeadingPlus => "invalid digit for integer"@,
        UnsignedError::Empty => "cannot parse integer from empty string"@,
        UnsignedError::InvalidDigit => "invalid digit found in string"@,
        UnsignedError::Overflow => "number too large to fit in target type"@,
    }
}

/// The message of an error kind.
pub open spec fn kind_text(k: Kind) -> Seq<char> {
    match k {
        Kind::ParseFloat => "invalid float literal"@,
        Kind::ParseLogical(s) => "invalid Fortran logical value: \""@ + s@ + "\""@,
        Kind::ParseUnsigned(u) => unsigned_text(u),
        Kind::Generic(r) => reason_text(r),
    }
}

/// The one-based place of an error, as written before its message.
pub open spec fn place_text(line: Option<usize>, col: Option<usize>) -> Seq<char> {
    match (line, col) {
        (None, _) => seq![],
        (Some(r), None) => dec((r + 1) as nat) + ": "@,
        (Some(r), Some(c)) => dec((r + 1) as nat) + ":"@ + dec((c + 1) as nat) + ": "@,
    }
}

/// The text of an error: its path (or a placeholder), its place, its message.
pub open spec fn error_text(e: ParseError) -> Seq<char> {
    let p = match e.path {
        Some(p) => p@,
        None => "<input>"@,
    };
    p + ":"@ + place_text(e.line, e.col) + kind_text(e.kind)
}

fn reason_message(r: Reason) -> (s: Vec<char>)
    ensures
        s@ == reason_text(r),
{
    match r {
        Reason::UnexpectedEof => chars_of("unexpected end of file"),
        Reason::ExpectedEof => chars_of("expected end of file"),
        Reason::ExpectedScale => chars_of("expected scale"),
        Reason::ScaleZero => chars_of("scale cannot be zero"),
        Reason::ScaleNan => chars_of("scale cannot be nan"),
        Reason::TooManyFloats => chars_of("too many floats on scale line (expected just one)"),
        Reason::ExpectedLatticeComponents => chars_of(
            "expected three components for lattice vector",
        ),
        Reason::ExpectedElementOrCount => chars_of("expected at least one element or count"),
        Reason::InvalidSymbol => chars_of("invalid symbol"),
        Reason::InconsistentCounts => chars_of("Inconsistent number of counts"),
        Reason::NoAtoms => chars_of("There must be at least one atom."),
        Reason::TooManyAtoms => chars_of("too many atoms"),
        Reason::ExpectedCoordinates => chars_of("expected 3 coordinates"),
        Reason::ExpectedFlags => chars_of("expected 3 boolean flags"),
    }
}

fn kind_message(k: &Kind) -> (s: Vec<char>)
    ensures
        s@ == kind_text(*k),
{
    match k {
        Kind::ParseFloat => chars_of("invalid float literal"),
        Kind::ParseLogical(t) => {
            let mut s = chars_of("invalid Fortran logical value: \"");
            let t = chars_of(t.as_str());
            append_chars(&mut s, t.as_slice());
            let q = chars_of("\"");
            append_chars(&mut s, q.as_slice());
            s
        },
        Kind::ParseUnsigned(u) => match u {
            UnsignedError::LeadingPlus => chars_of("invalid digit for integer"),
            UnsignedError::Empty => chars_of("cannot parse integer from empty string"),
            UnsignedError::InvalidDigit => chars_of("invalid digit found in string"),
            UnsignedError::Overflow => chars_of("number too large to fit in target type"),
        },
        Kind::Generic(r) => reason_message(*r),
    }
}

impl ParseError {
    /// The error as one line of text: `<path>:<line>:<col>: <message>`, with
    /// one-based line and column.
    pub fn message(&self) -> (r: String)
        ensures
            r@ == error_text(*self),
    {
        let mut s = match &self.path {
            Some(p) => chars_of(p.as_str()),
            None => chars_of("<input>"),
        };
        let colon = chars_of(":");
        let colsp = chars_of(": ");
        append_chars(&mut s, colon.as_slice());
        match self.line {
            None => {},
            Some(r) => {
                let d = decimal(r as u128 + 1);
                append_chars(&mut s, d.as_slice());
                match self.col {
                    None => {},
                    Some(c) => {
                        append_chars(&mut s, colon.as_slice());
                        let d = decimal(c as u128 + 1);
                        append_chars(&mut s, d.as_slice());
                    },
                }
                append_chars(&mut s, colsp.as_slice());
            },
        }
        let k = kind_message(&self.kind);
        append_chars(&mut s, k.as_slice());
        proof {
            let p = match &self.path {
                Some(p) => p@,
                None => "<input>"@,
            };
            assert(s@ =~= p + ":"@ + place_text(self.line, self.col) + kind_text(self.kind));
        }
        string_of(s.as_slice())
    }
}

} // verus!
