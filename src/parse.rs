//! The document parser: each section in turn, failing at the first error.
use vstd::prelude::*;
use crate::error::{is_error_at, Kind, ParseError, Reason};
use crate::literal::{
    classify_coord_line, classify_scale, coord_line_type, digits_value, first_after_trim,
    is_digit, is_real, is_real_literal, is_symbol, is_trim_empty, is_valid_symbol_for_symbol_line,
    logical_value, parse_logical, parse_unsigned, scale_sign, skip_unicode_ws, trim_is_empty,
    unsigned_value, CoordLineType, ScaleSign,
};
use crate::poscar::{all_real3, is_real3, sum, Coords, Poscar, ScaleLine, Triple};
use crate::span::{are_words, skip_ws, word_col, word_text, words_of, Lines, Spanned};
use crate::text::{
    chars_of, is_blank, lemma_lines_one_line, lines_after, lines_of, split_lines, string_of,
    sub_chars, views,
};

verus! {

/// The words of a line with their columns.
pub open spec fn toks(l: Seq<char>) -> Seq<(Seq<char>, int)> {
    Seq::new(words_of(l).len(), |k: int| (word_text(l, k), word_col(l, k)))
}

/// The texts and columns of pieces.
pub open spec fn toks_of(v: Seq<Spanned>) -> Seq<(Seq<char>, int)> {
    Seq::new(v.len(), |k: int| (v[k].s@, v[k].col as int))
}

/// True of an error of the given kind at line `line` and, when given, a
/// column.
pub open spec fn err_at(e: ParseError, kind: Kind, line: int, col: Option<int>) -> bool {
    &&& e.kind == kind
    &&& e.path is None
    &&& e.line == Some(line as usize)
    &&& e.col == match col {
        Some(c) => Some(c as usize),
        None => None,
    }
}

/// True when word `j` is missing or is no real.
pub open spec fn not_real_at(t: Seq<(Seq<char>, int)>, j: int) -> bool {
    j >= t.len() || !is_real(t[j].0)
}

/// The error for word `j` that is missing or no real.
pub open spec fn real_word_err(
    e: ParseError,
    t: Seq<(Seq<char>, int)>,
    line: int,
    missing: Reason,
    j: int,
) -> bool {
    if j >= t.len() {
        err_at(e, Kind::Generic(missing), line, None)
    } else {
        err_at(e, Kind::ParseFloat, line, Some(t[j].1))
    }
}

/// The error for the first of words `k`, `k + 1`, `k + 2` that is missing or
/// no real.
pub open spec fn real_err(
    e: ParseError,
    t: Seq<(Seq<char>, int)>,
    line: int,
    missing: Reason,
    k: int,
) -> bool {
    if not_real_at(t, k) {
        real_word_err(e, t, line, missing, k)
    } else if not_real_at(t, k + 1) {
        real_word_err(e, t, line, missing, k + 1)
    } else {
        real_word_err(e, t, line, missing, k + 2)
    }
}

/// True when word `j` is missing or is no boolean literal.
pub open spec fn not_flag_at(t: Seq<(Seq<char>, int)>, j: int) -> bool {
    j >= t.len() || logical_value(t[j].0) is None
}

/// The error for word `j` that is missing or no boolean literal.
pub open spec fn flag_word_err(e: ParseError, t: Seq<(Seq<char>, int)>, line: int, j: int) -> bool {
    if j >= t.len() {
        err_at(e, Kind::Generic(Reason::ExpectedFlags), line, None)
    } else {
        &&& e.kind is ParseLogical
        &&& e.kind->ParseLogical_0@ == t[j].0
        &&& e.path is None
        &&& e.line == Some(line as usize)
        &&& e.col == Some(t[j].1 as usize)
    }
}

/// The error for the first of words 3, 4, 5 that is missing or no boolean
/// literal.
pub open spec fn flag_err(e: ParseError, t: Seq<(Seq<char>, int)>, line: int) -> bool {
    if not_flag_at(t, 3) {
        flag_word_err(e, t, line, 3)
    } else if not_flag_at(t, 4) {
        flag_word_err(e, t, line, 4)
    } else {
        flag_word_err(e, t, line, 5)
    }
}

/// True when every piece stands on line `line`.
pub open spec fn all_on_line(v: Seq<Spanned>, line: usize) -> bool {
    forall|k: int| 0 <= k < v.len() ==> (#[trigger] v[k]).line == line
}

/// Reads word `k` as a real literal; a missing word is an error of the line.
pub fn real_word(words: &Vec<Spanned>, k: usize, line: usize, missing: Reason) -> (r: Result<
    String,
    ParseError,
>)
    ensures
        k < words@.len() && is_real(words@[k as int].s@) ==> r is Ok && r->Ok_0@ == words@[k as int].s@,
        k < words@.len() && !is_real(words@[k as int].s@) ==> r is Err && is_error_at(
            r->Err_0,
            Kind::ParseFloat,
            words@[k as int].line,
            Some(words@[k as int].col),
        ),
        k >= words@.len() ==> r is Err && is_error_at(
            r->Err_0,
            Kind::Generic(missing),
            line,
            None,
        ),
{
    if k >= words.len() {
        return Err(ParseError { kind: Kind::Generic(missing), path: None, line: Some(line), col: None });
    }
    let w = &words[k];
    if is_real_literal(w.s.as_slice()) {
        Ok(string_of(w.s.as_slice()))
    } else {
        Err(w.error(Kind::ParseFloat))
    }
}

/// Reads words `k`, `k + 1` and `k + 2` as real literals.
pub fn real_triple(words: &Vec<Spanned>, k: usize, line: usize, missing: Reason) -> (r: Result<
    Triple,
    ParseError,
>)
    requires
        k <= 3,
        all_on_line(words@, line),
    ensures
        r is Err ==> real_err(r->Err_0, toks_of(words@), line as int, missing, k as int),
        r is Ok <==> (k + 3 <= words@.len() && is_real(words@[k as int].s@) && is_real(
            words@[k + 1].s@,
        ) && is_real(words@[k + 2].s@)),
        r is Ok ==> is_real3(r->Ok_0) && r->Ok_0@[0]@ == words@[k as int].s@ && r->Ok_0@[1]@
            == words@[k + 1].s@ && r->Ok_0@[2]@ == words@[k + 2].s@,
{
    let a = match real_word(words, k, line, missing) {
        Ok(a) => a,
        Err(e) => return Err(e),
    };
    let b = match real_word(words, k + 1, line, missing) {
        Ok(b) => b,
        Err(e) => return Err(e),
    };
    let c = match real_word(words, k + 2, line, missing) {
        Ok(c) => c,
        Err(e) => return Err(e),
    };
    let t = [a, b, c];
    proof {
        assert(t@[0] == a && t@[1] == b && t@[2] == c);
    }
    Ok(t)
}

/// Reads words 3, 4 and 5 as boolean literals.
pub fn flag_triple(words: &Vec<Spanned>, line: usize) -> (r: Result<[bool; 3], ParseError>)
    requires
        all_on_line(words@, line),
    ensures
        r is Err ==> flag_err(r->Err_0, toks_of(words@), line as int),
        r is Ok <==> (6 <= words@.len() && logical_value(words@[3].s@) is Some && logical_value(
            words@[4].s@,
        ) is Some && logical_value(words@[5].s@) is Some),
        r is Ok ==> Some(r->Ok_0@[0]) == logical_value(words@[3].s@) && Some(r->Ok_0@[1])
            == logical_value(words@[4].s@) && Some(r->Ok_0@[2]) == logical_value(words@[5].s@),
{
    let a = match flag_word(words, 3, line) {
        Ok(a) => a,
        Err(e) => return Err(e),
    };
    let b = match flag_word(words, 4, line) {
        Ok(b) => b,
        Err(e) => return Err(e),
    };
    let c = match flag_word(words, 5, line) {
        Ok(c) => c,
        Err(e) => return Err(e),
    };
    let out = [a, b, c];
    proof {
        assert(out@[0] == a && out@[1] == b && out@[2] == c);
    }
    Ok(out)
}

/// Reads word `k` as a boolean literal; a missing word is an error of the line.
fn flag_word(words: &Vec<Spanned>, k: usize, line: usize) -> (r: Result<bool, ParseError>)
    requires
        all_on_line(words@, line),
    ensures
        r is Err ==> flag_word_err(r->Err_0, toks_of(words@), line as int, k as int),
        r is Ok <==> k < words@.len() && logical_value(words@[k as int].s@) is Some,
        r is Ok ==> Some(r->Ok_0) == logical_value(words@[k as int].s@),
{
    if k >= words.len() {
        return Err(
            ParseError {
                kind: Kind::Generic(Reason::ExpectedFlags),
                path: None,
                line: Some(line),
                col: None,
            },
        );
    }
    let w = &words[k];
    match parse_logical(w.s.as_slice()) {
        Ok(b) => Ok(b),
        Err(kind) => Err(w.error(kind)),
    }
}

/// True when line `l` is a valid scale line.
pub open spec fn scale_ok(l: Seq<char>) -> bool {
    let sign = scale_sign(word_text(l, 0));
    &&& words_of(l).len() > 0
    &&& (sign == ScaleSign::Positive || sign == ScaleSign::Negative)
    &&& !(words_of(l).len() > 1 && is_real(word_text(l, 1)))
}

/// True when the scale was read from line `l`.
pub open spec fn scale_reads(sc: ScaleLine, l: Seq<char>) -> bool {
    let w0 = word_text(l, 0);
    &&& words_of(l).len() > 0
    &&& !(words_of(l).len() > 1 && is_real(word_text(l, 1)))
    &&& scale_sign(w0) == ScaleSign::Positive ==> sc is Factor && sc->Factor_0@ == w0
    &&& scale_sign(w0) == ScaleSign::Negative ==> sc is Volume && sc->Volume_0@ == w0.drop_first()
    &&& (scale_sign(w0) == ScaleSign::Positive || scale_sign(w0) == ScaleSign::Negative)
}

/// Reads the scale line: its first word is a real, negative for a volume,
/// and no real may follow it.
pub fn scale_from_line(line: &Spanned) -> (r: Result<ScaleLine, ParseError>)
    requires
        line.wf(),
    ensures
        ({
            let s = line.s@;
            let nw = words_of(s).len();
            let w0 = word_text(s, 0);
            let c0 = (line.col + word_col(s, 0)) as usize;
            let sign = scale_sign(w0);
            &&& nw == 0 ==> r is Err && is_error_at(
                r->Err_0,
                Kind::Generic(Reason::ExpectedScale),
                line.line,
                None,
            )
            &&& nw > 0 && sign == ScaleSign::NotReal ==> r is Err && is_error_at(
                r->Err_0,
                Kind::ParseFloat,
                line.line,
                Some(c0),
            )
            &&& nw > 0 && sign == ScaleSign::Nan ==> r is Err && is_error_at(
                r->Err_0,
                Kind::Generic(Reason::ScaleNan),
                line.line,
                Some(c0),
            )
            &&& nw > 0 && sign == ScaleSign::Zero ==> r is Err && is_error_at(
                r->Err_0,
                Kind::Generic(Reason::ScaleZero),
                line.line,
                Some(c0),
            )
            &&& nw > 0 && (sign == ScaleSign::Positive || sign == ScaleSign::Negative) ==> {
                if nw > 1 && is_real(word_text(s, 1)) {
                    &&& r is Err
                    &&& is_error_at(
                        r->Err_0,
                        Kind::Generic(Reason::TooManyFloats),
                        line.line,
                        Some((line.col + word_col(s, 1)) as usize),
                    )
                } else if sign == ScaleSign::Positive {
                    r is Ok && r->Ok_0 is Factor && r->Ok_0->Factor_0@ == w0
                } else {
                    r is Ok && r->Ok_0 is Volume && r->Ok_0->Volume_0@ == w0.drop_first()
                }
            }
        }),
        r is Ok ==> r->Ok_0.wf(),
        r is Ok ==> scale_reads(r->Ok_0, line.s@),
        r is Ok <==> scale_ok(line.s@),
{
    let words = line.words();
    if words.len() == 0 {
        return Err(
            ParseError {
                kind: Kind::Generic(Reason::ExpectedScale),
                path: None,
                line: Some(line.line),
                col: None,
            },
        );
    }
    let w = &words[0];
    let ws = w.s.as_slice();
    let scale = match classify_scale(ws) {
        ScaleSign::NotReal => {
            return Err(w.error(Kind::ParseFloat));
        },
        ScaleSign::Nan => {
            return Err(w.error(Kind::Generic(Reason::ScaleNan)));
        },
        ScaleSign::Zero => {
            return Err(w.error(Kind::Generic(Reason::ScaleZero)));
        },
        ScaleSign::Negative => {
            let abs = sub_chars(ws, 1, ws.len());
            proof {
                assert(seq!['-'] + abs@ =~= ws@);
                assert(abs@ =~= ws@.drop_first());
            }
            ScaleLine::Volume(string_of(abs.as_slice()))
        },
        ScaleSign::Positive => ScaleLine::Factor(string_of(ws)),
    };
    if words.len() > 1 && is_real_literal(words[1].s.as_slice()) {
        return Err(words[1].error(Kind::Generic(Reason::TooManyFloats)));
    }
    Ok(scale)
}

/// Takes the next line, or fails at the end of the input.
fn next_line(lines: &mut Lines) -> (r: Result<Spanned, ParseError>)
    requires
        old(lines).wf(),
    ensures
        final(lines).wf(),
        final(lines).lines == old(lines).lines,
        final(lines).cur >= old(lines).cur,
        final(lines).all() == old(lines).all(),
        r is Ok ==> r->Ok_0.wf(),
        old(lines).cur < old(lines).lines@.len() ==> {
            &&& r is Ok
            &&& r->Ok_0.line == old(lines).cur
            &&& r->Ok_0.col == 0
            &&& r->Ok_0.s@ == old(lines).all()[old(lines).cur as int]
            &&& final(lines).cur == old(lines).cur + 1
        },
        old(lines).cur >= old(lines).lines@.len() ==> {
            &&& r is Err
            &&& is_error_at(r->Err_0, Kind::Generic(Reason::UnexpectedEof), old(lines).cur, None)
            &&& final(lines).cur == old(lines).cur
        },
{
    lines.next()
}

proof fn lemma_words_text(words: &Vec<Spanned>, line: &Spanned)
    requires
        are_words(words@, *line),
    ensures
        words@.len() == words_of(line.s@).len(),
        forall|k: int| 0 <= k < words@.len() ==> (#[trigger] words@[k]).s@ == word_text(line.s@, k),
        all_on_line(words@, line.line),
        line.col == 0 ==> toks_of(words@) == toks(line.s@),
{
    if line.col == 0 {
        assert(toks_of(words@) =~= toks(line.s@));
    }
}

/// True when the triple holds the first three words of the line.
pub open spec fn reads_triple(t: Triple, l: Seq<char>) -> bool {
    &&& words_of(l).len() >= 3
    &&& forall|j: int| 0 <= j < 3 ==> (#[trigger] t@[j])@ == word_text(l, j)
}

/// True when a word is a count: a non-negative integer that fits a `usize`.
pub open spec fn count_value_ok(w: Seq<char>) -> bool {
    unsigned_value(w) matches Some(v) && v <= usize::MAX
}

/// True when the counts were read from line `l`: its leading words that are
/// counts.
pub open spec fn counts_read(counts: Seq<usize>, l: Seq<char>) -> bool {
    &&& counts.len() <= words_of(l).len()
    &&& forall|i: int|
        0 <= i < counts.len() ==> unsigned_value(word_text(l, i)) == Some(
            #[trigger] counts[i] as u64,
        )
    &&& counts.len() < words_of(l).len() ==> !count_value_ok(word_text(l, counts.len() as int))
}

/// True when the symbols are the words of line `l`.
pub open spec fn symbols_read(syms: Seq<String>, l: Seq<char>) -> bool {
    &&& syms.len() == words_of(l).len()
    &&& forall|i: int| 0 <= i < syms.len() ==> (#[trigger] syms[i])@ == word_text(l, i)
}

/// True when the first character of a line that is no white space is a digit.
pub open spec fn starts_with_digit(l: Seq<char>) -> bool {
    skip_unicode_ws(l, 0) < l.len() && is_digit(l[skip_unicode_ws(l, 0)])
}

/// The index of the first word from `k` on of line `l` that is no count.
pub open spec fn lead_counts(l: Seq<char>, k: int) -> int
    decreases words_of(l).len() - k,
{
    if 0 <= k < words_of(l).len() && count_value_ok(word_text(l, k)) {
        lead_counts(l, k + 1)
    } else {
        k
    }
}

/// The counts of a counts line: its leading words that are counts.
pub open spec fn counts_of(l: Seq<char>) -> Seq<usize> {
    Seq::new(lead_counts(l, 0) as nat, |i: int| digits_value(word_text(l, i)) as usize)
}

/// True when the counts give at least one atom, and no more than a `usize`
/// holds, and match the number of symbols when there are symbols.
pub open spec fn counts_ok(cs: Seq<usize>, nsym: Option<nat>) -> bool {
    &&& nsym matches Some(m) ==> cs.len() == m
    &&& 1 <= sum(cs) <= usize::MAX
}

/// True when every word of line `l` is a symbol.
pub open spec fn symbols_all_ok(l: Seq<char>) -> bool {
    forall|i: int| 0 <= i < words_of(l).len() ==> is_symbol(#[trigger] word_text(l, i))
}

/// The error "invalid symbol" at word `k` of line `c`.
pub open spec fn symbol_err_at(e: ParseError, l: Seq<char>, c: int, k: int) -> bool {
    err_at(e, Kind::Generic(Reason::InvalidSymbol), c, Some(word_col(l, k)))
}

/// The error of the species and counts lines from index `c` on: a missing
/// line, a line without words, the first word that is no symbol, a number of
/// counts that differs from the number of symbols, too many atoms, or none.
pub open spec fn species_err(e: ParseError, all: Seq<Seq<char>>, c: int) -> bool {
    if c >= all.len() {
        err_at(e, Kind::Generic(Reason::UnexpectedEof), c, None)
    } else {
        let l = all[c];
        let digit = starts_with_digit(l);
        if words_of(l).len() == 0 {
            err_at(e, Kind::Generic(Reason::ExpectedElementOrCount), c, None)
        } else if !digit && !symbols_all_ok(l) {
            exists|k: int|
                0 <= k < words_of(l).len() && (forall|i: int|
                    0 <= i < k ==> is_symbol(#[trigger] word_text(l, i))) && !is_symbol(
                    word_text(l, k),
                ) && #[trigger] symbol_err_at(e, l, c, k)
        } else if !digit && c + 1 >= all.len() {
            err_at(e, Kind::Generic(Reason::UnexpectedEof), c + 1, None)
        } else {
            let cl = if digit {
                c
            } else {
                c + 1
            };
            let cs = counts_of(all[cl]);
            if !digit && words_of(l).len() != cs.len() {
                err_at(e, Kind::Generic(Reason::InconsistentCounts), cl, Some(0))
            } else if sum(cs) > usize::MAX {
                err_at(e, Kind::Generic(Reason::TooManyAtoms), cl, Some(0))
            } else {
                err_at(e, Kind::Generic(Reason::NoAtoms), cl, Some(0))
            }
        }
    }
}

/// True when the species and counts lines from index `c` on are readable.
pub open spec fn species_ok(all: Seq<Seq<char>>, c: int) -> bool {
    &&& 0 <= c < all.len()
    &&& words_of(all[c]).len() > 0
    &&& if starts_with_digit(all[c]) {
        counts_ok(counts_of(all[c]), None)
    } else {
        &&& forall|i: int| 0 <= i < words_of(all[c]).len() ==> is_symbol(#[trigger] word_text(all[c], i))
        &&& c + 1 < all.len()
        &&& counts_ok(counts_of(all[c + 1]), Some(words_of(all[c]).len()))
    }
}

proof fn lemma_lead_counts(counts: Seq<usize>, l: Seq<char>, k: int)
    requires
        counts_read(counts, l),
        0 <= k <= counts.len(),
    ensures
        lead_counts(l, k) == counts.len(),
    decreases counts.len() - k,
{
    if k < counts.len() {
        assert(unsigned_value(word_text(l, k)) == Some(counts[k] as u64));
        lemma_lead_counts(counts, l, k + 1);
    }
}

pub proof fn lemma_counts_of(counts: Seq<usize>, l: Seq<char>)
    requires
        counts_read(counts, l),
    ensures
        counts == counts_of(l),
{
    lemma_lead_counts(counts, l, 0);
    assert forall|i: int| 0 <= i < counts.len() implies counts[i] == counts_of(l)[i] by {
        assert(unsigned_value(word_text(l, i)) == Some(counts[i] as u64));
    }
    assert(counts =~= counts_of(l));
}

/// Reads the species line, if there is one, and the counts line: the
/// symbols, the counts, and the number of atoms.
#[verifier::loop_isolation(false)]
pub fn species_and_counts(lines: &mut Lines) -> (r: Result<
    (Option<Vec<String>>, Vec<usize>, usize),
    ParseError,
>)
    requires
        old(lines).wf(),
    ensures
        final(lines).wf(),
        final(lines).lines == old(lines).lines,
        r is Ok <==> species_ok(old(lines).all(), old(lines).cur as int),
        r is Err ==> species_err(r->Err_0, old(lines).all(), old(lines).cur as int),
        r is Ok ==> ({
            let (syms, counts, n) = r->Ok_0;
            &&& n as nat == sum(counts@)
            &&& n >= 1
            &&& counts@.len() > 0
            &&& (syms matches Some(s) ==> {
                &&& s@.len() == counts@.len()
                &&& forall|i: int| 0 <= i < s@.len() ==> is_symbol(#[trigger] s@[i]@)
            })
            &&& final(lines).all() == old(lines).all()
            &&& (syms is None) == starts_with_digit(old(lines).all()[old(lines).cur as int])
            &&& final(lines).cur == old(lines).cur + (if syms is Some { 2int } else { 1int })
            &&& final(lines).cur <= old(lines).all().len()
            &&& counts_read(counts@, old(lines).all()[final(lines).cur - 1])
            &&& (syms matches Some(s) ==> symbols_read(s@, old(lines).all()[old(lines).cur as int]))
        }),
{
    let line = match next_line(lines) {
        Ok(l) => l,
        Err(e) => return Err(e),
    };
    let words = line.words();
    if words.len() == 0 {
        return Err(
            ParseError {
                kind: Kind::Generic(Reason::ExpectedElementOrCount),
                path: None,
                line: Some(line.line),
                col: None,
            },
        );
    }
    let ghost all = old(lines).all();
    let ghost c0 = old(lines).cur as int;
    proof {
        lemma_words_text(&words, &line);
    }
    let first = first_after_trim(line.s.as_slice());
    let has_counts = match first {
        Some(c) => '0' <= c && c <= '9',
        None => false,
    };
    proof {
        assert(has_counts == starts_with_digit(all[c0]));
    }
    let (symbols, counts_line) = if has_counts {
        (None, line)
    } else {
        let mut syms: Vec<String> = Vec::new();
        let mut k: usize = 0;
        while k < words.len()
            invariant
                k <= words@.len(),
                syms@.len() == k,
                forall|i: int| 0 <= i < k ==> is_symbol(#[trigger] syms@[i]@),
                forall|i: int| 0 <= i < k ==> (#[trigger] syms@[i])@ == words@[i].s@,
            decreases words@.len() - k,
        {
            let w = &words[k];
            if !is_valid_symbol_for_symbol_line(w.s.as_slice()) {
                let e = w.error(Kind::Generic(Reason::InvalidSymbol));
                proof {
                    assert(!is_symbol(word_text(all[c0], k as int)));
                    assert(toks_of(words@)[k as int].1 == toks(all[c0])[k as int].1);
                    assert(symbol_err_at(e, all[c0], c0, k as int));
                    assert forall|i: int| 0 <= i < k implies is_symbol(
                        #[trigger] word_text(all[c0], i),
                    ) by {
                        assert(syms@[i]@ == words@[i].s@);
                    }
                }
                return Err(e);
            }
            syms.push(string_of(w.s.as_slice()));
            k = k + 1;
        }
        proof {
            assert forall|i: int| 0 <= i < words_of(all[c0]).len() implies is_symbol(
                #[trigger] word_text(all[c0], i),
            ) by {
                assert(syms@[i]@ == words@[i].s@);
            }
        }
        let next = match next_line(lines) {
            Ok(l) => l,
            Err(e) => return Err(e),
        };
        (Some(syms), next)
    };
    let cwords = counts_line.words();
    proof {
        lemma_words_text(&cwords, &counts_line);
    }
    let mut counts: Vec<usize> = Vec::new();
    let mut n: usize = 0;
    let mut overflow = false;
    let mut stop = false;
    let mut k: usize = 0;
    while k < cwords.len() && !stop
        invariant
            k <= cwords@.len(),
            counts@.len() == k,
            !overflow ==> n as nat == sum(counts@),
            overflow ==> sum(counts@) > usize::MAX,
            forall|i: int|
                0 <= i < k ==> unsigned_value(cwords@[i].s@) == Some(#[trigger] counts@[i] as u64),
            stop ==> k < cwords@.len() && !count_value_ok(cwords@[k as int].s@),
        decreases cwords@.len() - k + (if stop { 0int } else { 1int }),
    {
        match parse_unsigned(cwords[k].s.as_slice()) {
            Ok(v) => {
                if v > usize::MAX as u64 {
                    stop = true;
                } else {
                    let c = v as usize;
                    proof {
                        assert(counts@.push(c).drop_last() =~= counts@);
                    }
                    counts.push(c);
                    if !overflow && n <= usize::MAX - c {
                        n = n + c;
                    } else {
                        overflow = true;
                    }
                    k = k + 1;
                }
            },
            Err(_) => {
                stop = true;
            },
        }
    }
    proof {
        lemma_counts_of(counts@, counts_line.s@);
    }
    match &symbols {
        Some(s) => {
            if s.len() != counts.len() {
                return Err(counts_line.error(Kind::Generic(Reason::InconsistentCounts)));
            }
        },
        None => {},
    }
    if overflow {
        return Err(counts_line.error(Kind::Generic(Reason::TooManyAtoms)));
    }
    if n == 0 {
        return Err(counts_line.error(Kind::Generic(Reason::NoAtoms)));
    }
    proof {
        if counts@.len() == 0 {
            assert(sum(counts@) == 0);
        }
        assert(species_ok(all, c0));
    }
    Ok((symbols, counts, n))
}

/// True when the flags were read from words 3, 4 and 5 of line `l`.
pub open spec fn flags_read(f: [bool; 3], l: Seq<char>) -> bool {
    &&& words_of(l).len() >= 6
    &&& forall|j: int| 0 <= j < 3 ==> Some(#[trigger] f@[j]) == logical_value(word_text(l, 3 + j))
}

/// True when the first three words of line `l` are reals.
pub open spec fn triple_ok(l: Seq<char>) -> bool {
    &&& words_of(l).len() >= 3
    &&& forall|j: int| 0 <= j < 3 ==> is_real(#[trigger] word_text(l, j))
}

/// True when words 3, 4 and 5 of line `l` are boolean literals.
pub open spec fn flags_ok(l: Seq<char>) -> bool {
    &&& words_of(l).len() >= 6
    &&& logical_value(word_text(l, 3)) is Some
    &&& logical_value(word_text(l, 4)) is Some
    &&& logical_value(word_text(l, 5)) is Some
}

/// True when the `n` lines from index `c` on are position lines (with flags
/// when `flags` is set).
pub open spec fn positions_ok(all: Seq<Seq<char>>, c: int, n: int, flags: bool) -> bool {
    &&& c + n <= all.len()
    &&& forall|k: int|
        0 <= k < n ==> triple_ok(#[trigger] all[c + k]) && (flags ==> flags_ok(all[c + k]))
}

/// The error of a position line that does not read.
pub open spec fn row_err(e: ParseError, l: Seq<char>, line: int, flags: bool) -> bool {
    if !triple_ok(l) {
        real_err(e, toks(l), line, Reason::ExpectedCoordinates, 0)
    } else {
        flag_err(e, toks(l), line)
    }
}

/// True when the `k` lines from index `c` on are there and read.
pub open spec fn rows_ok_upto(all: Seq<Seq<char>>, c: int, k: int, flags: bool) -> bool {
    forall|i: int|
        0 <= i < k ==> c + i < all.len() && triple_ok(#[trigger] all[c + i]) && (flags ==> flags_ok(
            all[c + i],
        ))
}

/// The error of line `c + k`: missing, or not read.
pub open spec fn row_err_at(e: ParseError, all: Seq<Seq<char>>, c: int, k: int, flags: bool) -> bool {
    if c + k >= all.len() {
        err_at(e, Kind::Generic(Reason::UnexpectedEof), c + k, None)
    } else {
        row_err(e, all[c + k], c + k, flags)
    }
}

/// The error of the `n` position lines from index `c` on: that of the first
/// line that is missing or does not read.
pub open spec fn rows_err(e: ParseError, all: Seq<Seq<char>>, c: int, n: int, flags: bool) -> bool {
    exists|k: int|
        0 <= k < n && rows_ok_upto(all, c, k, flags) && #[trigger] row_err_at(e, all, c, k, flags)
}

/// The error "expected end of file" at the first word of line `j`.
pub open spec fn eof_expected_at(e: ParseError, all: Seq<Seq<char>>, j: int) -> bool {
    err_at(e, Kind::Generic(Reason::ExpectedEof), j, Some(skip_ws(all[j], 0)))
}

/// The error of the lines from `start` on that must be blank: "expected end
/// of file" at the first word of the first line that is not.
pub open spec fn blank_err(e: ParseError, all: Seq<Seq<char>>, start: int) -> bool {
    exists|j: int|
        start <= j < all.len() && (forall|i: int| start <= i < j ==> is_blank(#[trigger] all[i]))
            && !is_blank(all[j]) && #[trigger] eof_expected_at(e, all, j)
}

/// Reads `n` coordinate lines: three reals each, and three flags when
/// `flags` is set.
#[verifier::loop_isolation(false)]
fn position_lines(lines: &mut Lines, n: usize, flags: bool) -> (r: Result<
    (Vec<Triple>, Vec<[bool; 3]>),
    ParseError,
>)
    requires
        old(lines).wf(),
    ensures
        final(lines).wf(),
        final(lines).lines == old(lines).lines,
        final(lines).all() == old(lines).all(),
        r is Ok <==> positions_ok(old(lines).all(), old(lines).cur as int, n as int, flags),
        r is Err ==> rows_err(r->Err_0, old(lines).all(), old(lines).cur as int, n as int, flags),
        r is Ok ==> ({
            let (pos, dyn_) = r->Ok_0;
            let c = old(lines).cur as int;
            &&& pos@.len() == n
            &&& all_real3(pos@)
            &&& flags ==> dyn_@.len() == n
            &&& final(lines).cur == c + n
            &&& forall|k: int| 0 <= k < n ==> reads_triple(#[trigger] pos@[k], old(lines).all()[c + k])
            &&& flags ==> forall|k: int|
                0 <= k < n ==> flags_read(#[trigger] dyn_@[k], old(lines).all()[c + k])
        }),
{
    let mut pos: Vec<Triple> = Vec::new();
    let mut dyn_: Vec<[bool; 3]> = Vec::new();
    let mut k: usize = 0;
    while k < n
        invariant
            k <= n,
            lines.wf(),
            lines.lines == old(lines).lines,
            lines.all() == old(lines).all(),
            lines.cur == old(lines).cur + k,
            pos@.len() == k,
            all_real3(pos@),
            flags ==> dyn_@.len() == k,
            forall|i: int|
                0 <= i < k ==> reads_triple(#[trigger] pos@[i], lines.all()[old(lines).cur + i]),
            flags ==> forall|i: int|
                0 <= i < k ==> flags_read(#[trigger] dyn_@[i], lines.all()[old(lines).cur + i]),
            forall|i: int|
                0 <= i < k ==> triple_ok(#[trigger] lines.all()[old(lines).cur + i]) && (flags
                    ==> flags_ok(lines.all()[old(lines).cur + i])),
        decreases n - k,
    {
        let ghost all = lines.all();
        let ghost c = lines.cur as int;
        let line = match next_line(lines) {
            Ok(l) => l,
            Err(e) => {
                proof {
                    assert(c == old(lines).cur + k);
                    assert(row_err_at(e, all, old(lines).cur as int, k as int, flags));
                }
                return Err(e);
            },
        };
        let words = line.words();
        proof {
            lemma_words_text(&words, &line);
        }
        let t = match real_triple(&words, 0, line.line, Reason::ExpectedCoordinates) {
            Ok(t) => t,
            Err(e) => {
                proof {
                    assert(!triple_ok(all[c]));
                    assert(row_err_at(e, all, old(lines).cur as int, k as int, flags));
                }
                return Err(e);
            },
        };
        if flags {
            let f = match flag_triple(&words, line.line) {
                Ok(f) => f,
                Err(e) => {
                    proof {
                        assert(!flags_ok(all[c]));
                        assert(row_err_at(e, all, old(lines).cur as int, k as int, flags));
                    }
                    return Err(e);
                },
            };
            dyn_.push(f);
        }
        pos.push(t);
        k = k + 1;
    }
    Ok((pos, dyn_))
}

/// Reads `n` velocity lines, of which the first has been taken already.
#[verifier::loop_isolation(false)]
fn velocity_lines(lines: &mut Lines, first: Spanned, n: usize) -> (r: Result<
    Vec<Triple>,
    ParseError,
>)
    requires
        old(lines).wf(),
        old(lines).cur >= 1,
        first.wf(),
        first.col == 0,
        first.line == old(lines).cur - 1,
        first.s@ == old(lines).all()[old(lines).cur - 1],
        n >= 1,
    ensures
        final(lines).wf(),
        final(lines).lines == old(lines).lines,
        final(lines).all() == old(lines).all(),
        r is Ok <==> positions_ok(old(lines).all(), old(lines).cur - 1, n as int, false),
        r is Err ==> rows_err(r->Err_0, old(lines).all(), old(lines).cur - 1, n as int, false),
        r is Ok ==> {
            &&& r->Ok_0@.len() == n
            &&& all_real3(r->Ok_0@)
            &&& final(lines).cur == old(lines).cur - 1 + n
            &&& old(lines).cur - 1 + n <= old(lines).all().len()
            &&& forall|k: int|
                0 <= k < n ==> reads_triple(
                    #[trigger] r->Ok_0@[k],
                    old(lines).all()[old(lines).cur - 1 + k],
                )
        },
{
    let ghost c0 = old(lines).cur - 1;
    let ghost all = old(lines).all();
    let words = first.words();
    proof {
        lemma_words_text(&words, &first);
    }
    let t = match real_triple(&words, 0, first.line, Reason::ExpectedCoordinates) {
        Ok(t) => t,
        Err(e) => {
            proof {
                assert(!triple_ok(all[c0 + 0]));
                assert(row_err_at(e, all, c0, 0, false));
            }
            return Err(e);
        },
    };
    let mut vel: Vec<Triple> = Vec::new();
    vel.push(t);
    let mut k: usize = 1;
    while k < n
        invariant
            1 <= k <= n,
            lines.wf(),
            lines.lines == old(lines).lines,
            lines.all() == old(lines).all(),
            lines.cur == c0 + k,
            vel@.len() == k,
            all_real3(vel@),
            forall|i: int| 0 <= i < k ==> reads_triple(#[trigger] vel@[i], lines.all()[c0 + i]),
            forall|i: int| 0 <= i < k ==> triple_ok(#[trigger] all[c0 + i]),
        decreases n - k,
    {
        let line = match next_line(lines) {
            Ok(l) => l,
            Err(e) => {
                proof {
                    assert(row_err_at(e, all, c0, k as int, false));
                }
                return Err(e);
            },
        };
        let words = line.words();
        proof {
            lemma_words_text(&words, &line);
        }
        let t = match real_triple(&words, 0, line.line, Reason::ExpectedCoordinates) {
            Ok(t) => t,
            Err(e) => {
                proof {
                    assert(!triple_ok(all[c0 + k]));
                    assert(row_err_at(e, all, c0, k as int, false));
                }
                return Err(e);
            },
        };
        vel.push(t);
        k = k + 1;
    }
    Ok(vel)
}

/// Whether velocities follow the positions, as far as one line tells.
#[derive(Debug, Clone, Copy, PartialEq, Eq, Structural)]
pub enum Presence {
    /// A line that is not blank: velocities follow, in the system it gives.
    Required,
    /// A blank line: trailing padding, or a direct velocity block.
    Possible,
}

/// What the line after the positions says of velocities, and whether they
/// would be Cartesian.
pub fn presence_of(line: &[char]) -> (r: (Presence, bool))
    ensures
        r.0 == (if coord_line_type(line@) == CoordLineType::EmptyOrWhitespace {
            Presence::Possible
        } else {
            Presence::Required
        }),
        r.1 == (coord_line_type(line@) == CoordLineType::Cartesian),
{
    match classify_coord_line(line) {
        CoordLineType::Cartesian => (Presence::Required, true),
        CoordLineType::Direct | CoordLineType::SuspiciouslyDirect | CoordLineType::IndentedText => (
            Presence::Required,
            false,
        ),
        CoordLineType::EmptyOrWhitespace => (Presence::Possible, false),
    }
}

/// What the lines from index `c` on say of a velocity block.
#[derive(Debug, Clone, Copy, PartialEq, Eq, Structural)]
pub enum VelocityShape {
    /// The input ends, or ends after one blank line: no velocities.
    Absent,
    /// Two blank lines: no velocities, and nothing but blank lines may follow.
    BlankTail,
    /// A line that is not blank ends the input: the data is missing.
    Missing,
    /// Velocities follow; Cartesian when the flag is set.
    Present(bool),
}

/// The velocity decision: one line tells whether velocities are required or
/// only possible, and one more line settles it.
pub open spec fn velocity_shape(all: Seq<Seq<char>>, c: int) -> VelocityShape {
    if c >= all.len() {
        VelocityShape::Absent
    } else {
        let possible = coord_line_type(all[c]) == CoordLineType::EmptyOrWhitespace;
        if c + 1 >= all.len() {
            if possible {
                VelocityShape::Absent
            } else {
                VelocityShape::Missing
            }
        } else if possible && is_trim_empty(all[c + 1]) {
            VelocityShape::BlankTail
        } else {
            VelocityShape::Present(coord_line_type(all[c]) == CoordLineType::Cartesian)
        }
    }
}

/// Reads the velocity block of `n` atoms, if there is one.
pub fn velocities(lines: &mut Lines, n: usize) -> (r: Result<Option<Coords>, ParseError>)
    requires
        old(lines).wf(),
        n >= 1,
    ensures
        final(lines).wf(),
        final(lines).lines == old(lines).lines,
        final(lines).all() == old(lines).all(),
        r matches Ok(Some(v)) ==> v.rows().len() == n && all_real3(v.rows()),
        r matches Ok(None) ==> final(lines).cur == old(lines).lines@.len(),
        ({
            let all = old(lines).all();
            let c = old(lines).cur as int;
            match velocity_shape(all, c) {
                VelocityShape::Absent => r == Ok::<Option<Coords>, ParseError>(None),
                VelocityShape::Missing => r is Err && is_error_at(
                    r->Err_0,
                    Kind::Generic(Reason::UnexpectedEof),
                    (c + 1) as usize,
                    None,
                ),
                VelocityShape::BlankTail => {
                    &&& r is Ok <==> forall|j: int| c + 2 <= j < all.len() ==> is_blank(#[trigger] all[j])
                    &&& r is Ok ==> r->Ok_0 is None
                    &&& r is Err ==> blank_err(r->Err_0, all, c + 2)
                },
                VelocityShape::Present(cart) => {
                    &&& (r is Ok <==> positions_ok(all, c + 1, n as int, false))
                    &&& r is Err ==> rows_err(r->Err_0, all, c + 1, n as int, false)
                    &&& r is Ok ==> {
                        &&& r->Ok_0 is Some
                        &&& final(lines).cur == c + 1 + n
                        &&& r->Ok_0->Some_0.is_cart() == cart
                        &&& c + 1 + n <= all.len()
                        &&& forall|k: int|
                            0 <= k < n ==> reads_triple(
                                #[trigger] r->Ok_0->Some_0.rows()[k],
                                all[c + 1 + k],
                            )
                    }
                },
            }
        }),
{
    let line = match next_line(lines) {
        Ok(l) => l,
        Err(_) => return Ok(None),
    };
    let (presence, cart) = presence_of(line.s.as_slice());
    let line = match next_line(lines) {
        Ok(l) => l,
        Err(e) => {
            return match presence {
                Presence::Required => Err(e),
                Presence::Possible => Ok(None),
            };
        },
    };
    if presence == Presence::Possible && trim_is_empty(line.s.as_slice()) {
        let ghost before = *lines;
        return match lines.expect_blank_until_eof() {
            Ok(()) => Ok(None),
            Err(e) => {
                proof {
                    assert(eof_expected_at(e, before.all(), lines.cur - 1));
                }
                Err(e)
            },
        };
    }
    let vel = match velocity_lines(lines, line, n) {
        Ok(v) => v,
        Err(e) => return Err(e),
    };
    if cart {
        Ok(Some(Coords::Cart(vel)))
    } else {
        Ok(Some(Coords::Frac(vel)))
    }
}

/// True when a line turns selective dynamics on.
pub open spec fn is_selective_line(l: Seq<char>) -> bool {
    l.len() > 0 && (l[0] == 's' || l[0] == 'S')
}

/// True when the document was read from the lines, from the species or
/// counts line (index 5) on: the counts, the symbols, the flag and header
/// lines, a position (with flags) from each of `n` lines, the velocities as
/// the decision of `velocity_shape` gives them, and blank lines after.
pub open spec fn reads_body(p: Poscar, all: Seq<Seq<char>>) -> bool {
    let fl = if p.group_symbols is Some {
        7int
    } else {
        6int
    };
    let hl = if p.dynamics is Some {
        fl + 1
    } else {
        fl
    };
    let ps = hl + 1;
    let n = p.n() as int;
    &&& ps + n <= all.len()
    &&& (p.group_symbols is None) == starts_with_digit(all[5])
    &&& counts_read(p.group_counts@, all[fl - 1])
    &&& (p.group_symbols matches Some(s) ==> symbols_read(s@, all[5]))
    &&& (p.dynamics is Some <==> is_selective_line(all[fl]))
    &&& p.positions.is_cart() == (coord_line_type(all[hl]) == CoordLineType::Cartesian)
    &&& forall|k: int| 0 <= k < n ==> reads_triple(#[trigger] p.positions.rows()[k], all[ps + k])
    &&& (p.dynamics matches Some(d) ==> forall|k: int|
        0 <= k < n ==> flags_read(#[trigger] d@[k], all[ps + k]))
    &&& match velocity_shape(all, ps + n) {
        VelocityShape::Present(cart) => {
            &&& p.velocities matches Some(v)
            &&& v.is_cart() == cart
            &&& ps + 2 * n + 1 <= all.len()
            &&& forall|k: int|
                0 <= k < n ==> reads_triple(#[trigger] v.rows()[k], all[ps + n + 1 + k])
            &&& forall|j: int| ps + 2 * n + 1 <= j < all.len() ==> is_blank(#[trigger] all[j])
        },
        VelocityShape::BlankTail => {
            &&& p.velocities is None
            &&& forall|j: int| ps + n + 2 <= j < all.len() ==> is_blank(#[trigger] all[j])
        },
        VelocityShape::Absent => p.velocities is None,
        VelocityShape::Missing => false,
    }
}

/// The index of the line after the counts line.
pub open spec fn after_counts(all: Seq<Seq<char>>) -> int {
    if starts_with_digit(all[5]) {
        6
    } else {
        7
    }
}

/// The number of atoms that the counts line gives.
pub open spec fn atoms(all: Seq<Seq<char>>) -> nat {
    sum(counts_of(all[after_counts(all) - 1]))
}

/// True of the inputs that parse: a comment, a scale line, three lattice
/// vectors, species and counts, an optional flag line, a coordinate-system
/// line, one line per atom, and then either the end of the input, blank
/// lines, or a velocity block followed by blank lines.
pub open spec fn accepts(all: Seq<Seq<char>>) -> bool {
    let fl = after_counts(all);
    let sd = fl < all.len() && is_selective_line(all[fl]);
    let hl = if sd {
        fl + 1
    } else {
        fl
    };
    let ps = hl + 1;
    let n = atoms(all) as int;
    &&& all.len() >= 5
    &&& scale_ok(all[1])
    &&& triple_ok(all[2])
    &&& triple_ok(all[3])
    &&& triple_ok(all[4])
    &&& species_ok(all, 5)
    &&& hl < all.len()
    &&& positions_ok(all, ps, n, sd)
    &&& match velocity_shape(all, ps + n) {
        VelocityShape::Absent => true,
        VelocityShape::Missing => false,
        VelocityShape::BlankTail => forall|j: int|
            ps + n + 2 <= j < all.len() ==> is_blank(#[trigger] all[j]),
        VelocityShape::Present(_) => {
            &&& positions_ok(all, ps + n + 1, n, false)
            &&& forall|j: int| ps + 2 * n + 1 <= j < all.len() ==> is_blank(#[trigger] all[j])
        },
    }
}

/// The error of a scale line that does not read (at index `line`).
pub open spec fn scale_err(e: ParseError, l: Seq<char>, line: int) -> bool {
    let sign = scale_sign(word_text(l, 0));
    if words_of(l).len() == 0 {
        err_at(e, Kind::Generic(Reason::ExpectedScale), line, None)
    } else if sign == ScaleSign::NotReal {
        err_at(e, Kind::ParseFloat, line, Some(word_col(l, 0)))
    } else if sign == ScaleSign::Nan {
        err_at(e, Kind::Generic(Reason::ScaleNan), line, Some(word_col(l, 0)))
    } else if sign == ScaleSign::Zero {
        err_at(e, Kind::Generic(Reason::ScaleZero), line, Some(word_col(l, 0)))
    } else {
        err_at(e, Kind::Generic(Reason::TooManyFloats), line, Some(word_col(l, 1)))
    }
}

/// The error of lattice line `i` (at index `2 + i`), missing or not read.
pub open spec fn lattice_err(e: ParseError, all: Seq<Seq<char>>, i: int) -> bool {
    if 2 + i >= all.len() {
        err_at(e, Kind::Generic(Reason::UnexpectedEof), 2 + i, None)
    } else {
        real_err(e, toks(all[2 + i]), 2 + i, Reason::ExpectedLatticeComponents, 0)
    }
}

/// True when lattice line `i` is there and reads.
pub open spec fn lattice_ok(all: Seq<Seq<char>>, i: int) -> bool {
    2 + i < all.len() && triple_ok(all[2 + i])
}

/// The error of an input that does not parse: that of the first section, in
/// the order they are read, that fails.
pub open spec fn first_error(e: ParseError, all: Seq<Seq<char>>) -> bool {
    let fl = after_counts(all);
    let sd = fl < all.len() && is_selective_line(all[fl]);
    let hl = if sd {
        fl + 1
    } else {
        fl
    };
    let ps = hl + 1;
    let n = atoms(all) as int;
    if all.len() <= 1 {
        err_at(e, Kind::Generic(Reason::UnexpectedEof), all.len() as int, None)
    } else if !scale_ok(all[1]) {
        scale_err(e, all[1], 1)
    } else if !lattice_ok(all, 0) {
        lattice_err(e, all, 0)
    } else if !lattice_ok(all, 1) {
        lattice_err(e, all, 1)
    } else if !lattice_ok(all, 2) {
        lattice_err(e, all, 2)
    } else if !species_ok(all, 5) {
        species_err(e, all, 5)
    } else if hl >= all.len() {
        err_at(e, Kind::Generic(Reason::UnexpectedEof), all.len() as int, None)
    } else if !positions_ok(all, ps, n, sd) {
        rows_err(e, all, ps, n, sd)
    } else {
        match velocity_shape(all, ps + n) {
            VelocityShape::Missing => err_at(
                e,
                Kind::Generic(Reason::UnexpectedEof),
                ps + n + 1,
                None,
            ),
            VelocityShape::BlankTail => blank_err(e, all, ps + n + 2),
            VelocityShape::Present(_) => if !positions_ok(all, ps + n + 1, n, false) {
                rows_err(e, all, ps + n + 1, n, false)
            } else {
                blank_err(e, all, ps + 2 * n + 1)
            },
            VelocityShape::Absent => false,
        }
    }
}

/// Parses a document from its lines.
#[verifier::loop_isolation(false)]
#[verifier::rlimit(40)]
pub fn parse_lines(lines: Vec<Vec<char>>) -> (r: Result<Poscar, ParseError>)
    requires
        forall|k: int, i: int|
            0 <= k < lines@.len() && 0 <= i < lines@[k]@.len() ==> #[trigger] lines@[k]@[i] != '\n',
    ensures
        r is Ok ==> r->Ok_0.wf(),
        r is Ok ==> r->Ok_0.comment@ == views(lines@)[0],
        r is Ok ==> scale_reads(r->Ok_0.scale, views(lines@)[1]),
        r is Ok ==> forall|i: int|
            0 <= i < 3 ==> reads_triple(#[trigger] r->Ok_0.lattice_vectors@[i], views(lines@)[2 + i]),
        r is Ok ==> reads_body(r->Ok_0, views(lines@)),
        r is Ok <==> accepts(views(lines@)),
        r is Err ==> first_error(r->Err_0, views(lines@)),
        lines@.len() == 0 ==> r is Err && is_error_at(
            r->Err_0,
            Kind::Generic(Reason::UnexpectedEof),
            0,
            None,
        ),
{
    let ghost old_lines = lines@;
    let mut lines = Lines::new(lines);
    let first = match lines.next() {
        Ok(l) => l,
        Err(e) => return Err(e),
    };
    let comment = string_of(first.s.as_slice());
    let line = match next_line(&mut lines) {
        Ok(l) => l,
        Err(e) => return Err(e),
    };
    let scale = match scale_from_line(&line) {
        Ok(s) => s,
        Err(e) => return Err(e),
    };
    let mut rows: Vec<Triple> = Vec::new();
    let mut k: usize = 0;
    while k < 3
        invariant
            k <= 3,
            lines.wf(),
            lines.all() == views(old_lines),
            lines.cur == 2 + k,
            scale_ok(views(old_lines)[1]),
            forall|i: int| 0 <= i < k ==> lattice_ok(views(old_lines), i),
            rows@.len() == k,
            all_real3(rows@),
            forall|i: int| 0 <= i < k ==> reads_triple(#[trigger] rows@[i], lines.all()[2 + i]),
        decreases 3 - k,
    {
        let line = match next_line(&mut lines) {
            Ok(l) => l,
            Err(e) => {
                proof {
                    assert(!lattice_ok(views(old_lines), k as int));
                    assert(lattice_err(e, views(old_lines), k as int));
                }
                return Err(e);
            },
        };
        let words = line.words();
        proof {
            lemma_words_text(&words, &line);
        }
        let t = match real_triple(&words, 0, line.line, Reason::ExpectedLatticeComponents) {
            Ok(t) => t,
            Err(e) => {
                proof {
                    assert(!triple_ok(views(old_lines)[2 + k]));
                    assert(lattice_err(e, views(old_lines), k as int));
                }
                return Err(e);
            },
        };
        rows.push(t);
        k = k + 1;
    }
    let ghost rows3 = rows@;
    let c = rows.pop().unwrap();
    let b = rows.pop().unwrap();
    let a = rows.pop().unwrap();
    let lattice_vectors = [a, b, c];
    proof {
        assert(a == rows3[0] && b == rows3[1] && c == rows3[2]);
        assert(lattice_vectors@ =~= rows3);
    }
    let (group_symbols, group_counts, n) = match species_and_counts(&mut lines) {
        Ok(x) => x,
        Err(e) => return Err(e),
    };
    proof {
        lemma_counts_of(group_counts@, lines.all()[lines.cur - 1]);
        assert(n as nat == atoms(views(old_lines)));
    }
    let line = match next_line(&mut lines) {
        Ok(l) => l,
        Err(e) => return Err(e),
    };
    let sd = match line.control_char() {
        Some(c) => c == 's' || c == 'S',
        None => false,
    };
    let line = if sd {
        match next_line(&mut lines) {
            Ok(l) => l,
            Err(e) => return Err(e),
        }
    } else {
        line
    };
    let cart = classify_coord_line(line.s.as_slice()) == CoordLineType::Cartesian;
    let (pos, dyn_) = match position_lines(&mut lines, n, sd) {
        Ok(x) => x,
        Err(e) => return Err(e),
    };
    let positions = if cart {
        Coords::Cart(pos)
    } else {
        Coords::Frac(pos)
    };
    let dynamics = if sd {
        Some(dyn_)
    } else {
        None
    };
    let ghost all = views(old_lines);
    let ghost fl = after_counts(all);
    let ghost hl = if sd {
        fl + 1
    } else {
        fl
    };
    proof {
        assert(lines.cur == hl + 1 + n);
        assert(sd == (fl < all.len() && is_selective_line(all[fl])));
    }
    let velocities = match velocities(&mut lines, n) {
        Ok(v) => v,
        Err(e) => {
            proof {
                assert(!accepts(all));
            }
            return Err(e);
        },
    };
    let ghost before = lines;
    match lines.expect_blank_until_eof() {
        Ok(()) => {},
        Err(e) => {
            proof {
                assert(eof_expected_at(e, all, lines.cur - 1));
            }
            return Err(e);
        },
    }
    let p = Poscar {
        comment,
        scale,
        lattice_vectors,
        group_symbols,
        group_counts,
        positions,
        dynamics,
        velocities,
    };
    Ok(p)
}

/// True when the document was read from the lines: all that a successful
/// read states of its result.
pub open spec fn read_from(p: Poscar, all: Seq<Seq<char>>) -> bool {
    &&& p.wf()
    &&& p.comment@ == all[0]
    &&& scale_reads(p.scale, all[1])
    &&& forall|i: int| 0 <= i < 3 ==> reads_triple(#[trigger] p.lattice_vectors@[i], all[2 + i])
    &&& reads_body(p, all)
}

impl Poscar {
    /// Reads a document from the whole text of a file. A successful read
    /// takes the text to its end.
    pub fn from_reader(text: &str) -> (r: Result<Poscar, ParseError>)
        ensures
            r is Ok <==> accepts(lines_of(text@)),
            r is Ok ==> r->Ok_0.wf(),
            r is Ok ==> r->Ok_0.comment@ == lines_of(text@)[0],
            r is Ok ==> scale_reads(r->Ok_0.scale, lines_of(text@)[1]),
            r is Ok ==> forall|i: int|
                0 <= i < 3 ==> reads_triple(
                    #[trigger] r->Ok_0.lattice_vectors@[i],
                    lines_of(text@)[2 + i],
                ),
            r is Ok ==> reads_body(r->Ok_0, lines_of(text@)),
            r is Ok ==> read_from(r->Ok_0, lines_of(text@)),
            r is Err ==> first_error(r->Err_0, lines_of(text@)),
            lines_of(text@).len() == 0 ==> r is Err && is_error_at(
                r->Err_0,
                Kind::Generic(Reason::UnexpectedEof),
                0,
                None,
            ),
    {
        let cs = chars_of(text);
        let lines = split_lines(cs.as_slice());
        proof {
            lemma_lines_one_line(text@, seq![]);
            assert forall|k: int, i: int|
                0 <= k < lines@.len() && 0 <= i < lines@[k]@.len() implies #[trigger] lines@[k]@[i]
                != '\n' by {
                assert(views(lines@)[k] == lines@[k]@);
                assert(lines_after(text@, seq![])[k][i] != '\n');
            }
        }
        parse_lines(lines)
    }
}

} // verus!
