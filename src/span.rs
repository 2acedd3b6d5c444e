//! Lines and words that remember where they stand in the input.
use vstd::prelude::*;
use crate::error::{is_error_at, Kind, ParseError, Reason};
use crate::text::{chars_of, is_ascii_whitespace, is_blank, is_ws, string_of, sub_chars, views};

verus! {

/// A piece of text with its zero-based line and column.
#[derive(Debug, Clone, PartialEq, Eq)]
pub struct Spanned {
    pub line: usize,
    pub col: usize,
    pub s: Vec<char>,
}

/// The first index from `i` on that holds no whitespace, or the length.
pub open spec fn skip_ws(s: Seq<char>, i: int) -> int
    decreases s.len() - i,
{
    if 0 <= i < s.len() && is_ws(s[i]) {
        skip_ws(s, i + 1)
    } else {
        i
    }
}

/// The first index from `i` on that holds whitespace, or the length.
pub open spec fn word_end(s: Seq<char>, i: int) -> int
    decreases s.len() - i,
{
    if 0 <= i < s.len() && !is_ws(s[i]) {
        word_end(s, i + 1)
    } else {
        i
    }
}

/// The start and end of each word of `s` from index `i` on, in order: a word
/// is a longest run of characters that are no whitespace.
pub open spec fn word_spans(s: Seq<char>, i: int) -> Seq<(int, int)>
    decreases s.len() - i,
{
    let a = skip_ws(s, i);
    let b = word_end(s, a);
    if 0 <= i <= a < b <= s.len() {
        seq![(a, b)] + word_spans(s, b)
    } else {
        seq![]
    }
}

/// The words of `s`.
pub open spec fn words_of(s: Seq<char>) -> Seq<(int, int)> {
    word_spans(s, 0)
}

/// The text of word `k` of `s`.
pub open spec fn word_text(s: Seq<char>, k: int) -> Seq<char> {
    s.subrange(words_of(s)[k].0, words_of(s)[k].1)
}

/// The column of word `k` of `s`.
pub open spec fn word_col(s: Seq<char>, k: int) -> int {
    words_of(s)[k].0
}

/// True when `w` is the piece `start..end` of `sp`.
pub open spec fn is_piece(w: Spanned, sp: Spanned, start: int, end: int) -> bool {
    &&& w.line == sp.line
    &&& w.col == sp.col + start
    &&& w.s@ == sp.s@.subrange(start, end)
}

/// True when `ws` holds the words of `sp`, in order, with their places.
pub open spec fn are_words(ws: Seq<Spanned>, sp: Spanned) -> bool {
    let spans = words_of(sp.s@);
    &&& ws.len() == spans.len()
    &&& forall|k: int|
        0 <= k < ws.len() ==> is_piece(#[trigger] ws[k], sp, spans[k].0, spans[k].1)
}

pub proof fn lemma_skip_ws_bounds(s: Seq<char>, i: int)
    requires
        0 <= i <= s.len(),
    ensures
        i <= skip_ws(s, i) <= s.len(),
        skip_ws(s, i) < s.len() ==> !is_ws(s[skip_ws(s, i)]),
        forall|j: int| i <= j < skip_ws(s, i) ==> is_ws(#[trigger] s[j]),
    decreases s.len() - i,
{
    if i < s.len() && is_ws(s[i]) {
        lemma_skip_ws_bounds(s, i + 1);
    }
}

proof fn lemma_word_end_bounds(s: Seq<char>, i: int)
    requires
        0 <= i <= s.len(),
    ensures
        i <= word_end(s, i) <= s.len(),
        i < s.len() && !is_ws(s[i]) ==> i < word_end(s, i),
    decreases s.len() - i,
{
    if i < s.len() && !is_ws(s[i]) {
        lemma_word_end_bounds(s, i + 1);
    }
}

/// A text has no words exactly when it is blank.
pub proof fn lemma_no_words_iff_blank(s: Seq<char>)
    ensures
        (words_of(s).len() == 0) == is_blank(s),
        words_of(s).len() > 0 ==> words_of(s)[0].0 == skip_ws(s, 0),
{
    lemma_skip_ws_bounds(s, 0);
    let a = skip_ws(s, 0);
    if a < s.len() {
        lemma_word_end_bounds(s, a);
        assert(!is_blank(s));
    } else {
        assert(is_blank(s));
    }
}

impl Spanned {
    /// True when the column of every character of the piece fits in a `usize`.
    pub open spec fn wf(&self) -> bool {
        self.col + self.s@.len() <= usize::MAX
    }

    /// A piece of text at line 0, column 0.
    pub fn wrap_arbitrary(s: &str) -> (r: Spanned)
        ensures
            r.line == 0,
            r.col == 0,
            r.s@ == s@,
    {
        Spanned { line: 0, col: 0, s: chars_of(s) }
    }

    /// A piece of text at the given place.
    pub fn new(line: usize, col: usize, s: &str) -> (r: Spanned)
        ensures
            r.line == line,
            r.col == col,
            r.s@ == s@,
    {
        Spanned { line, col, s: chars_of(s) }
    }

    /// The text of the piece.
    pub fn as_str(&self) -> (r: String)
        ensures
            r@ == self.s@,
    {
        string_of(self.s.as_slice())
    }

    /// The number of characters of the piece.
    pub fn len(&self) -> (r: usize)
        ensures
            r == self.s@.len(),
    {
        self.s.len()
    }

    /// The piece `start..end` of this one, with its own column.
    pub fn slice(&self, start: usize, end: usize) -> (r: Spanned)
        requires
            self.wf(),
            start <= end <= self.s@.len(),
        ensures
            is_piece(r, *self, start as int, end as int),
            r.wf(),
    {
        Spanned { line: self.line, col: self.col + start, s: sub_chars(self.s.as_slice(), start, end) }
    }

    /// The words of the piece, each with its own column.
    pub fn words(&self) -> (r: Vec<Spanned>)
        requires
            self.wf(),
        ensures
            are_words(r@, *self),
            forall|k: int| 0 <= k < r@.len() ==> (#[trigger] r@[k]).wf(),
    {
        let s = self.s.as_slice();
        let n = s.len();
        let ghost spans = words_of(s@);
        let mut out: Vec<Spanned> = Vec::new();
        let mut i: usize = 0;
        proof {
            assert(spans.subrange(0, spans.len() as int) =~= spans);
        }
        loop
            invariant
                i <= n == s@.len(),
                s@ == self.s@,
                self.wf(),
                spans == words_of(s@),
                out@.len() <= spans.len(),
                word_spans(s@, i as int) == spans.subrange(out@.len() as int, spans.len() as int),
                forall|k: int|
                    0 <= k < out@.len() ==> is_piece(
                        #[trigger] out@[k],
                        *self,
                        spans[k].0,
                        spans[k].1,
                    ) && out@[k].wf(),
            decreases n - i,
        {
            let ghost i0 = i as int;
            while i < n && is_ascii_whitespace(s[i])
                invariant
                    i0 <= i <= n == s@.len(),
                    skip_ws(s@, i as int) == skip_ws(s@, i0),
                decreases n - i,
            {
                i = i + 1;
            }
            if i == n {
                proof {
                    assert(word_spans(s@, i0) =~= Seq::<(int, int)>::empty());
                    assert(out@.len() == spans.len());
                }
                return out;
            }
            let a = i;
            while i < n && !is_ascii_whitespace(s[i])
                invariant
                    a <= i <= n == s@.len(),
                    a < n,
                    !is_ws(s@[a as int]),
                    word_end(s@, i as int) == word_end(s@, a as int),
                decreases n - i,
            {
                i = i + 1;
            }
            proof {
                assert(word_spans(s@, i0) == seq![(a as int, i as int)] + word_spans(s@, i as int));
                let rest = spans.subrange(out@.len() as int, spans.len() as int);
                assert(rest[0] == (a as int, i as int));
                assert(rest.drop_first() =~= word_spans(s@, i as int));
                assert(rest.drop_first() =~= spans.subrange(
                    out@.len() + 1 as int,
                    spans.len() as int,
                ));
            }
            let w = self.slice(a, i);
            out.push(w);
        }
    }

    /// The first character of the piece, whatever it is.
    pub fn control_char(&self) -> (r: Option<char>)
        ensures
            r == (if self.s@.len() > 0 {
                Some(self.s@[0])
            } else {
                None
            }),
    {
        if self.s.len() > 0 {
            Some(self.s[0])
        } else {
            None
        }
    }

    /// An error at the place of this piece.
    pub fn error(&self, kind: Kind) -> (e: ParseError)
        ensures
            is_error_at(e, kind, self.line, Some(self.col)),
    {
        ParseError { kind, path: None, line: Some(self.line), col: Some(self.col) }
    }
}

/// The error for a line that is missing.
pub fn eof_error(line: usize) -> (e: ParseError)
    ensures
        is_error_at(e, Kind::Generic(Reason::UnexpectedEof), line, None),
{
    ParseError { kind: Kind::Generic(Reason::UnexpectedEof), path: None, line: Some(line), col: None }
}

/// The lines of an input and how many have been taken.
pub struct Lines {
    pub lines: Vec<Vec<char>>,
    pub cur: usize,
}

impl Lines {
    pub open spec fn all(&self) -> Seq<Seq<char>> {
        views(self.lines@)
    }

    pub open spec fn wf(&self) -> bool {
        self.cur <= self.lines@.len()
    }

    /// None of the lines taken yet.
    pub fn new(lines: Vec<Vec<char>>) -> (r: Lines)
        ensures
            r.all() == views(lines@),
            r.lines == lines,
            r.cur == 0,
            r.wf(),
    {
        Lines { lines, cur: 0 }
    }

    /// Takes the next line, or fails at the end of the input, as often as it
    /// is asked.
    pub fn next(&mut self) -> (r: Result<Spanned, ParseError>)
        requires
            old(self).wf(),
        ensures
            final(self).wf(),
            final(self).lines == old(self).lines,
            final(self).all() == old(self).all(),
            old(self).cur < old(self).lines@.len() ==> {
                &&& r is Ok
                &&& r->Ok_0.line == old(self).cur
                &&& r->Ok_0.col == 0
                &&& r->Ok_0.wf()
                &&& r->Ok_0.s@ == old(self).all()[old(self).cur as int]
                &&& final(self).cur == old(self).cur + 1
            },
            old(self).cur >= old(self).lines@.len() ==> {
                &&& r is Err
                &&& is_error_at(
                    r->Err_0,
                    Kind::Generic(Reason::UnexpectedEof),
                    old(self).cur,
                    None,
                )
                &&& final(self).cur == old(self).cur
            },
    {
        if self.cur < self.lines.len() {
            let l = &self.lines[self.cur];
            let s = sub_chars(l.as_slice(), 0, l.len());
            proof {
                assert(s@ =~= l@);
            }
            // the length of a vector fits in a `usize`, so the piece is well formed
            let _len = s.len();
            let sp = Spanned { line: self.cur, col: 0, s };
            self.cur = self.cur + 1;
            Ok(sp)
        } else {
            Err(eof_error(self.cur))
        }
    }

    /// Takes all the lines that are left; fails at the first word of a line
    /// that is not blank.
    pub fn expect_blank_until_eof(&mut self) -> (r: Result<(), ParseError>)
        requires
            old(self).wf(),
        ensures
            final(self).wf(),
            final(self).lines == old(self).lines,
            final(self).all() == old(self).all(),
            r is Ok <==> (forall|j: int|
                old(self).cur <= j < old(self).all().len() ==> is_blank(
                    #[trigger] old(self).all()[j],
                )),
            r is Ok ==> final(self).cur == final(self).lines@.len(),
            r is Err ==> {
                let j = final(self).cur - 1;
                &&& old(self).cur <= j < old(self).all().len()
                &&& !is_blank(old(self).all()[j])
                &&& forall|i: int| old(self).cur <= i < j ==> is_blank(#[trigger] old(self).all()[i])
                &&& is_error_at(
                    r->Err_0,
                    Kind::Generic(Reason::ExpectedEof),
                    j as usize,
                    Some(skip_ws(old(self).all()[j], 0) as usize),
                )
            },
    {
        let ghost start = self.cur;
        while self.cur < self.lines.len()
            invariant
                self.wf(),
                start <= self.cur,
                self.all() == old(self).all(),
                self.lines == old(self).lines,
                start == old(self).cur,
                forall|i: int| start <= i < self.cur ==> is_blank(#[trigger] self.all()[i]),
            decreases self.lines@.len() - self.cur,
        {
            let line = self.next();
            match line {
                Ok(line) => {
                    let words = line.words();
                    proof {
                        lemma_no_words_iff_blank(line.s@);
                    }
                    if words.len() > 0 {
                        let w = &words[0];
                        return Err(w.error(Kind::Generic(Reason::ExpectedEof)));
                    }
                },
                Err(_) => {},
            }
        }
        Ok(())
    }
}

} // verus!
