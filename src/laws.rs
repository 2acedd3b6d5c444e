//! Laws that relate the writer to the parser: what is written reads back
//! as the same document.
use vstd::prelude::*;
use crate::error::{dec, digit_char};
use crate::literal::{
    all_digits, coord_line_type, digits_value, exp_at, find2, is_digit, is_real, is_symbol,
    is_trim_empty, is_unicode_ws, is_word_nocase, logical_value, lower, scale_sign,
    skip_unicode_ws, unsigned_part, unsigned_value, CoordLineType, ScaleSign,
};
use crate::parse::{
    accepts, after_counts, atoms, counts_of, counts_read, flags_ok, flags_read,
    is_selective_line, lemma_counts_of, positions_ok, read_from, reads_triple, scale_ok,
    species_ok, starts_with_digit, symbols_read, triple_ok, velocity_shape, VelocityShape,
};
use crate::poscar::{is_real3, Coords, Poscar, ScaleLine, Triple};
use crate::span::{
    lemma_no_words_iff_blank, lemma_skip_ws_bounds, skip_ws, word_end, word_spans, word_text,
    words_of,
};
use crate::text::{is_ws, lines_after, lines_of, strip_cr};
use crate::write::{
    counts_view, flag_char, flags_text, head_text, header_text, join_padded, lattice_text, pad2,
    poscar_text, rows_text, species_text, symbols_view, triple_text, velocities_text,
};

verus! {

proof fn lemma_skip_run(s: Seq<char>, i: int, a: int)
    requires
        0 <= i <= a <= s.len(),
        forall|j: int| i <= j < a ==> is_ws(#[trigger] s[j]),
        a == s.len() || !is_ws(s[a]),
    ensures
        skip_ws(s, i) == a,
    decreases a - i,
{
    if i < a {
        lemma_skip_run(s, i + 1, a);
    }
}

proof fn lemma_word_run(s: Seq<char>, a: int, b: int)
    requires
        0 <= a <= b <= s.len(),
        forall|j: int| a <= j < b ==> !is_ws(#[trigger] s[j]),
        b == s.len() || is_ws(s[b]),
    ensures
        word_end(s, a) == b,
    decreases b - a,
{
    if a < b {
        lemma_word_run(s, a + 1, b);
    }
}

/// One word `a..b` after whitespace from `i`.
proof fn lemma_one_word(s: Seq<char>, i: int, a: int, b: int)
    requires
        0 <= i <= a < b <= s.len(),
        forall|j: int| i <= j < a ==> is_ws(#[trigger] s[j]),
        forall|j: int| a <= j < b ==> !is_ws(#[trigger] s[j]),
        b == s.len() || is_ws(s[b]),
    ensures
        word_spans(s, i) == seq![(a, b)] + word_spans(s, b),
{
    lemma_skip_run(s, i, a);
    lemma_word_run(s, a, b);
}

/// No words in whitespace to the end.
proof fn lemma_no_words(s: Seq<char>, i: int)
    requires
        0 <= i <= s.len(),
        forall|j: int| i <= j < s.len() ==> is_ws(#[trigger] s[j]),
    ensures
        word_spans(s, i) == Seq::<(int, int)>::empty(),
{
    lemma_skip_run(s, i, s.len() as int);
}

/// The words of a text in front of whitespace are the words of the whole up to
/// that point.
proof fn lemma_words_prefix(x: Seq<char>, y: Seq<char>, i: int)
    requires
        0 <= i <= x.len(),
        y.len() > 0,
        is_ws(y[0]),
    ensures
        word_spans(x + y, i) == word_spans(x, i) + word_spans(x + y, x.len() as int),
    decreases x.len() - i,
{
    let s = x + y;
    let a = skip_ws(s, i);
    let ax = skip_ws(x, i);
    lemma_skip_same(x, y, i);
    lemma_bounds(x, i);
    if ax < x.len() {
        let b = word_end(s, ax);
        lemma_end_same(x, y, ax);
        lemma_bounds(x, i);
        lemma_words_prefix(x, y, word_end(x, ax));
    } else {
        lemma_bounds(x, i);
        assert(word_spans(x, i) =~= Seq::<(int, int)>::empty());
        lemma_skip_rest(s, i, x.len() as int);
    }
}

proof fn lemma_bounds(x: Seq<char>, i: int)
    requires
        0 <= i <= x.len(),
    ensures
        i <= skip_ws(x, i) <= x.len(),
        skip_ws(x, i) < x.len() ==> skip_ws(x, i) < word_end(x, skip_ws(x, i)) <= x.len(),
    decreases x.len() - i,
{
    if i < x.len() && is_ws(x[i]) {
        lemma_bounds(x, i + 1);
    } else if i < x.len() {
        lemma_end_bounds(x, i);
    }
}

proof fn lemma_end_bounds(x: Seq<char>, a: int)
    requires
        0 <= a <= x.len(),
    ensures
        a <= word_end(x, a) <= x.len(),
        a < x.len() && !is_ws(x[a]) ==> a < word_end(x, a),
    decreases x.len() - a,
{
    if a < x.len() && !is_ws(x[a]) {
        lemma_end_bounds(x, a + 1);
    }
}

proof fn lemma_skip_same(x: Seq<char>, y: Seq<char>, i: int)
    requires
        0 <= i <= x.len(),
    ensures
        skip_ws(x, i) < x.len() ==> skip_ws(x + y, i) == skip_ws(x, i),
        skip_ws(x, i) >= x.len() ==> skip_ws(x + y, i) == skip_ws(x + y, x.len() as int),
    decreases x.len() - i,
{
    if i < x.len() {
        assert((x + y)[i] == x[i]);
        if is_ws(x[i]) {
            lemma_skip_same(x, y, i + 1);
        }
    }
}

proof fn lemma_skip_rest(s: Seq<char>, i: int, m: int)
    requires
        0 <= i <= m <= s.len(),
        skip_ws(s, i) == skip_ws(s, m),
    ensures
        word_spans(s, i) == word_spans(s, m),
{
    lemma_bounds(s, m);
}

proof fn lemma_end_same(x: Seq<char>, y: Seq<char>, a: int)
    requires
        0 <= a <= x.len(),
        y.len() > 0,
        is_ws(y[0]),
    ensures
        word_end(x + y, a) == word_end(x, a),
    decreases x.len() - a,
{
    if a < x.len() {
        assert((x + y)[a] == x[a]);
        if !is_ws(x[a]) {
            lemma_end_same(x, y, a + 1);
        }
    } else {
        assert((x + y)[a] == y[0]);
    }
}

proof fn lemma_lines_after_line(s: Seq<char>, rest: Seq<char>, cur: Seq<char>)
    requires
        !s.contains('\n'),
    ensures
        lines_after(s + seq!['\n'] + rest, cur) == seq![strip_cr(cur + s)] + lines_after(
            rest,
            seq![],
        ),
    decreases s.len(),
{
    let t = s + seq!['\n'] + rest;
    if s.len() == 0 {
        assert(t[0] == '\n');
        assert(t.drop_first() =~= rest);
        assert(cur + s =~= cur);
    } else {
        assert(t[0] == s[0]);
        assert(t.drop_first() =~= s.drop_first() + seq!['\n'] + rest);
        assert(!s.drop_first().contains('\n')) by {
            if s.drop_first().contains('\n') {
                let i = choose|i: int| 0 <= i < s.drop_first().len() && s.drop_first()[i] == '\n';
                assert(s[i + 1] == '\n');
            }
        }
        lemma_lines_after_line(s.drop_first(), rest, cur.push(s[0]));
        assert(cur.push(s[0]) + s.drop_first() =~= cur + s);
    }
}

/// True of a word with no white space in it.
pub open spec fn solid(s: Seq<char>) -> bool {
    &&& s.len() > 0
    &&& forall|i: int| 0 <= i < s.len() ==> !is_unicode_ws(#[trigger] s[i])
}

proof fn lemma_find2_hit(s: Seq<char>, i: int, c1: char, c2: char)
    requires
        0 <= i <= s.len(),
    ensures
        i <= find2(s, i, c1, c2) <= s.len(),
        find2(s, i, c1, c2) < s.len() ==> (s[find2(s, i, c1, c2)] == c1 || s[find2(s, i, c1, c2)]
            == c2),
    decreases s.len() - i,
{
    if i < s.len() && s[i] != c1 && s[i] != c2 {
        lemma_find2_hit(s, i + 1, c1, c2);
    }
}

proof fn lemma_word_nocase_solid(u: Seq<char>, w: Seq<char>)
    requires
        is_word_nocase(u, w),
        forall|i: int| 0 <= i < w.len() ==> 'a' <= #[trigger] w[i] <= 'z',
    ensures
        forall|i: int| 0 <= i < u.len() ==> !is_unicode_ws(#[trigger] u[i]),
{
    assert forall|i: int| 0 <= i < u.len() implies !is_unicode_ws(#[trigger] u[i]) by {
        assert(lower(u[i]) == w[i]);
    }
}

proof fn lemma_digits_solid(s: Seq<char>)
    requires
        all_digits(s),
    ensures
        forall|i: int| 0 <= i < s.len() ==> !is_unicode_ws(#[trigger] s[i]),
{
    assert forall|i: int| 0 <= i < s.len() implies !is_unicode_ws(#[trigger] s[i]) by {
        assert(is_digit(s[i]));
    }
}

/// A real literal has no white space in it.
proof fn lemma_real_solid(s: Seq<char>)
    requires
        is_real(s),
    ensures
        solid(s),
{
    reveal_strlit("nan");
    reveal_strlit("inf");
    reveal_strlit("infinity");
    let u = unsigned_part(s);
    assert forall|i: int| 0 <= i < u.len() implies !is_unicode_ws(#[trigger] u[i]) by {
        if is_word_nocase(u, "nan"@) {
            lemma_word_nocase_solid(u, "nan"@);
        } else if is_word_nocase(u, "inf"@) {
            lemma_word_nocase_solid(u, "inf"@);
        } else if is_word_nocase(u, "infinity"@) {
            lemma_word_nocase_solid(u, "infinity"@);
        } else {
            let e = exp_at(u);
            lemma_find2_hit(u, 0, 'e', 'E');
            let m = u.subrange(0, e);
            let d = find2(m, 0, '.', '.');
            lemma_find2_hit(m, 0, '.', '.');
            if i < e {
                assert(u[i] == m[i]);
                if d == m.len() {
                    lemma_digits_solid(m);
                } else if i < d {
                    assert(m[i] == m.subrange(0, d)[i]);
                    lemma_digits_solid(m.subrange(0, d));
                } else if i > d {
                    assert(m[i] == m.subrange(d + 1, m.len() as int)[i - d - 1]);
                    lemma_digits_solid(m.subrange(d + 1, m.len() as int));
                }
            } else if i > e {
                let x = u.subrange(e + 1, u.len() as int);
                assert(u[i] == x[i - e - 1]);
                if x.len() > 0 && (x[0] == '+' || x[0] == '-') {
                    if i > e + 1 {
                        assert(x[i - e - 1] == x.drop_first()[i - e - 2]);
                        lemma_digits_solid(x.drop_first());
                    }
                } else {
                    lemma_digits_solid(x);
                }
            }
        }
    }
    assert forall|i: int| 0 <= i < s.len() implies !is_unicode_ws(#[trigger] s[i]) by {
        if s.len() > 0 && (s[0] == '+' || s[0] == '-') {
            if i > 0 {
                assert(s[i] == u[i - 1]);
            }
        } else {
            assert(s[i] == u[i]);
        }
    }
    if !is_word_nocase(u, "nan"@) && !is_word_nocase(u, "inf"@) && !is_word_nocase(
        u,
        "infinity"@,
    ) {
        let e = exp_at(u);
        lemma_find2_hit(u, 0, 'e', 'E');
        let m = u.subrange(0, e);
        lemma_find2_hit(m, 0, '.', '.');
    }
}

/// The decimal digits of a number are a count of its value.
proof fn lemma_dec(n: nat)
    ensures
        dec(n).len() > 0,
        all_digits(dec(n)),
        digits_value(dec(n)) == n,
    decreases n,
{
    if n >= 10 {
        lemma_dec(n / 10);
        let d = dec(n / 10);
        let s = d.push(digit_char(n % 10));
        assert(s.drop_last() =~= d);
        assert(all_digits(s)) by {
            assert forall|i: int| 0 <= i < s.len() implies is_digit(#[trigger] s[i]) by {
                if i < d.len() {
                    assert(s[i] == d[i]);
                }
            }
        }
        assert((48 + n % 10) as u8 as char as nat == 48 + n % 10);
        assert(s.last() == digit_char(n % 10));
        assert(digits_value(s) == digits_value(d) * 10 + (s.last() as nat - 48) as nat);
        assert((n / 10) * 10 + n % 10 == n) by (nonlinear_arith);
    } else {
        let s = seq![digit_char(n)];
        assert(dec(n) =~= s);
        assert((48 + n) as u8 as char as nat == 48 + n);
        assert(s.drop_last() =~= Seq::<char>::empty());
        assert(digits_value(s) == digits_value(s.drop_last()) * 10 + (s.last() as nat - 48) as nat);
    }
}

proof fn lemma_spans_bounded(s: Seq<char>, i: int)
    requires
        0 <= i <= s.len(),
    ensures
        forall|k: int|
            0 <= k < word_spans(s, i).len() ==> i <= (#[trigger] word_spans(s, i)[k]).0 < word_spans(
                s,
                i,
            )[k].1 <= s.len(),
    decreases s.len() - i,
{
    let a = skip_ws(s, i);
    let b = word_end(s, a);
    if 0 <= i <= a < b <= s.len() {
        lemma_spans_bounded(s, b);
        let r = word_spans(s, i);
        assert forall|k: int| 0 <= k < r.len() implies i <= (#[trigger] r[k]).0 < r[k].1
            <= s.len() by {
            if k > 0 {
                assert(r[k] == word_spans(s, b)[k - 1]);
            }
        }
    }
}

proof fn lemma_solid_no_ws(t: Seq<char>)
    requires
        solid(t),
    ensures
        forall|j: int| 0 <= j < t.len() ==> !is_ws(#[trigger] t[j]),
{
    assert forall|j: int| 0 <= j < t.len() implies !is_ws(#[trigger] t[j]) by {
        assert(!is_unicode_ws(t[j]));
    }
}

/// True of a word: not empty, and no whitespace that separates words.
pub open spec fn word_like(t: Seq<char>) -> bool {
    &&& t.len() > 0
    &&& forall|j: int| 0 <= j < t.len() ==> !is_ws(#[trigger] t[j])
}

proof fn lemma_solid_word_like(t: Seq<char>)
    requires
        solid(t),
    ensures
        word_like(t),
{
    lemma_solid_no_ws(t);
}

/// Whitespace and one more word after a text add that word to its words.
proof fn lemma_extend(x: Seq<char>, w: Seq<char>, t: Seq<char>)
    requires
        w.len() > 0,
        forall|j: int| 0 <= j < w.len() ==> is_ws(#[trigger] w[j]),
        word_like(t),
    ensures
        words_of(x + w + t) == words_of(x) + seq![
            ((x.len() + w.len()) as int, (x.len() + w.len() + t.len()) as int),
        ],
        forall|k: int|
            0 <= k < words_of(x).len() ==> #[trigger] word_text(x + w + t, k) == word_text(x, k),
        word_text(x + w + t, words_of(x).len() as int) == t,
{
    let s = x + w + t;
    let y = w + t;
    assert(s =~= x + y);
    lemma_words_prefix(x, y, 0);
    let a = (x.len() + w.len()) as int;
    let b = s.len() as int;
    assert forall|j: int| x.len() <= j < a implies is_ws(#[trigger] s[j]) by {
        assert(s[j] == w[j - x.len()]);
    }
    assert forall|j: int| a <= j < b implies !is_ws(#[trigger] s[j]) by {
        assert(s[j] == t[j - a]);
    }
    lemma_one_word(s, x.len() as int, a, b);
    lemma_no_words(s, b);
    assert(word_spans(s, b) =~= Seq::<(int, int)>::empty());
    lemma_spans_bounded(x, 0);
    assert forall|k: int| 0 <= k < words_of(x).len() implies #[trigger] word_text(s, k) == word_text(
        x,
        k,
    ) by {
        let sp = words_of(x)[k];
        assert(words_of(s)[k] == sp);
        assert(s.subrange(sp.0, sp.1) =~= x.subrange(sp.0, sp.1));
    }
    assert(words_of(s)[words_of(x).len() as int] == (a, b));
    assert(s.subrange(a, b) =~= t);
}

/// True of a run of spaces.
pub open spec fn blank_pad(w: Seq<char>) -> bool {
    &&& w.len() > 0
    &&& forall|j: int| 0 <= j < w.len() ==> is_ws(#[trigger] w[j])
}

proof fn lemma_no_words_empty()
    ensures
        words_of(Seq::<char>::empty()).len() == 0,
{
    lemma_no_words(Seq::<char>::empty(), 0);
}

/// The words of a line of three reals after some spaces.
proof fn lemma_triple_line(pad: Seq<char>, t: Triple)
    requires
        blank_pad(pad),
        is_real(t@[0]@),
        is_real(t@[1]@),
        is_real(t@[2]@),
    ensures
        words_of(pad + triple_text(t)).len() == 3,
        forall|j: int| 0 <= j < 3 ==> #[trigger] word_text(pad + triple_text(t), j) == t@[j]@,
{
    reveal_strlit(" ");
    let e = Seq::<char>::empty();
    let sp = " "@;
    assert(blank_pad(sp));
    lemma_real_solid(t@[0]@);
    lemma_real_solid(t@[1]@);
    lemma_real_solid(t@[2]@);
    lemma_solid_word_like(t@[0]@);
    lemma_solid_word_like(t@[1]@);
    lemma_solid_word_like(t@[2]@);
    lemma_no_words_empty();
    lemma_extend(e, pad, t@[0]@);
    let x1 = e + pad + t@[0]@;
    lemma_extend(x1, sp, t@[1]@);
    let x2 = x1 + sp + t@[1]@;
    lemma_extend(x2, sp, t@[2]@);
    let x3 = x2 + sp + t@[2]@;
    assert(x3 =~= pad + triple_text(t));
    assert forall|j: int| 0 <= j < 3 implies #[trigger] word_text(pad + triple_text(t), j)
        == t@[j]@ by {
        if j == 0 {
            assert(word_text(x2, 0) == word_text(x1, 0));
        } else if j == 1 {
            assert(word_text(x3, 1) == word_text(x2, 1));
        }
    }
}

/// The words of a position line with flags.
proof fn lemma_flag_line(pad: Seq<char>, t: Triple, f: [bool; 3])
    requires
        blank_pad(pad),
        is_real(t@[0]@),
        is_real(t@[1]@),
        is_real(t@[2]@),
    ensures
        ({
            let l = pad + triple_text(t) + " "@ + flags_text(f);
            &&& words_of(l).len() == 6
            &&& forall|j: int| 0 <= j < 3 ==> #[trigger] word_text(l, j) == t@[j]@
            &&& forall|j: int| 0 <= j < 3 ==> #[trigger] word_text(l, 3 + j) == seq![flag_char(f@[j])]
        }),
{
    reveal_strlit(" ");
    let sp = " "@;
    assert(blank_pad(sp));
    lemma_triple_line(pad, t);
    let x0 = pad + triple_text(t);
    let a = seq![flag_char(f@[0])];
    let b = seq![flag_char(f@[1])];
    let c = seq![flag_char(f@[2])];
    assert(word_like(a) && word_like(b) && word_like(c));
    lemma_extend(x0, sp, a);
    let x1 = x0 + sp + a;
    lemma_extend(x1, sp, b);
    let x2 = x1 + sp + b;
    lemma_extend(x2, sp, c);
    let x3 = x2 + sp + c;
    assert(x3 =~= pad + triple_text(t) + " "@ + flags_text(f));
    assert forall|j: int| 0 <= j < 3 implies #[trigger] word_text(x3, j) == t@[j]@ by {
        assert(word_text(x1, j) == word_text(x0, j));
        assert(word_text(x2, j) == word_text(x1, j));
        assert(word_text(x3, j) == word_text(x2, j));
    }
    assert forall|j: int| 0 <= j < 3 implies #[trigger] word_text(x3, 3 + j) == seq![
        flag_char(f@[j]),
    ] by {
        if j == 0 {
            assert(word_text(x2, 3) == word_text(x1, 3));
            assert(word_text(x3, 3) == word_text(x2, 3));
        } else if j == 1 {
            assert(word_text(x3, 4) == word_text(x2, 4));
        }
    }
}

/// The spaces that right-align a word of one or more characters to two.
pub open spec fn pad_of(s: Seq<char>) -> Seq<char> {
    if s.len() == 1 {
        seq![' ']
    } else {
        seq![]
    }
}

/// The words of a line of right-aligned words.
proof fn lemma_padded_words(v: Seq<Seq<char>>)
    requires
        v.len() >= 1,
        forall|k: int| 0 <= k < v.len() ==> word_like(#[trigger] v[k]),
    ensures
        words_of("  "@ + join_padded(v)).len() == v.len(),
        forall|k: int| 0 <= k < v.len() ==> #[trigger] word_text("  "@ + join_padded(v), k) == v[k],
    decreases v.len(),
{
    reveal_strlit("  ");
    reveal_strlit(" ");
    let last = v[v.len() - 1];
    assert(word_like(last));
    assert(pad2(last) =~= pad_of(last) + last);
    lemma_no_words_empty();
    if v.len() == 1 {
        let w = "  "@ + pad_of(last);
        assert(blank_pad(w));
        lemma_extend(Seq::<char>::empty(), w, last);
        assert(Seq::<char>::empty() + w + last =~= "  "@ + join_padded(v));
    } else {
        let vp = v.drop_last();
        assert forall|k: int| 0 <= k < vp.len() implies word_like(#[trigger] vp[k]) by {
            assert(vp[k] == v[k]);
        }
        lemma_padded_words(vp);
        let x = "  "@ + join_padded(vp);
        let w = " "@ + pad_of(last);
        assert(blank_pad(w));
        lemma_extend(x, w, last);
        assert(x + w + last =~= "  "@ + join_padded(v));
        assert forall|k: int| 0 <= k < v.len() implies #[trigger] word_text(
            "  "@ + join_padded(v),
            k,
        ) == v[k] by {
            if k < vp.len() {
                assert(word_text(x + w + last, k) == word_text(x, k));
                assert(vp[k] == v[k]);
            }
        }
    }
}

/// Lines, each followed by a line feed.
pub open spec fn join_nl(ls: Seq<Seq<char>>) -> Seq<char>
    decreases ls.len(),
{
    if ls.len() == 0 {
        seq![]
    } else {
        ls[0] + seq!['\n'] + join_nl(ls.drop_first())
    }
}

proof fn lemma_join_nl_concat(a: Seq<Seq<char>>, b: Seq<Seq<char>>)
    ensures
        join_nl(a + b) == join_nl(a) + join_nl(b),
    decreases a.len(),
{
    if a.len() == 0 {
        assert(a + b =~= b);
    } else {
        assert((a + b).drop_first() =~= a.drop_first() + b);
        lemma_join_nl_concat(a.drop_first(), b);
        assert((a + b)[0] == a[0]);
    }
}

proof fn lemma_join_nl_one(x: Seq<char>)
    ensures
        join_nl(seq![x]) == x + seq!['\n'],
{
    let e = seq![x].drop_first();
    assert(e =~= Seq::<Seq<char>>::empty());
    assert(join_nl(e) == Seq::<char>::empty());
    assert(seq![x][0] == x);
    assert(x + seq!['\n'] + Seq::<char>::empty() =~= x + seq!['\n']);
}

/// True of a line that reads back as itself.
pub open spec fn plain_line(l: Seq<char>) -> bool {
    &&& !l.contains('\n')
    &&& !(l.len() > 0 && l.last() == '\r')
}

proof fn lemma_lines_of_join(ls: Seq<Seq<char>>)
    requires
        forall|i: int| 0 <= i < ls.len() ==> plain_line(#[trigger] ls[i]),
    ensures
        lines_of(join_nl(ls)) == ls,
    decreases ls.len(),
{
    if ls.len() == 0 {
        assert(lines_of(join_nl(ls)) =~= ls);
    } else {
        assert(plain_line(ls[0]));
        lemma_lines_after_line(ls[0], join_nl(ls.drop_first()), seq![]);
        assert(Seq::<char>::empty() + ls[0] =~= ls[0]);
        assert forall|i: int| 0 <= i < ls.drop_first().len() implies plain_line(
            #[trigger] ls.drop_first()[i],
        ) by {
            assert(plain_line(ls[i + 1]));
        }
        lemma_lines_of_join(ls.drop_first());
        assert(seq![ls[0]] + ls.drop_first() =~= ls);
    }
}

/// The flags of row `k`, as written after its coordinates.
pub open spec fn row_flags(d: Option<Seq<[bool; 3]>>, k: int) -> Seq<char> {
    match d {
        Some(d) => " "@ + flags_text(d[k]),
        None => seq![],
    }
}

/// The data lines of coordinates.
pub open spec fn row_lines(rows: Seq<Triple>, d: Option<Seq<[bool; 3]>>) -> Seq<Seq<char>> {
    Seq::new(rows.len(), |k: int| "  "@ + triple_text(rows[k]) + row_flags(d, k))
}

proof fn lemma_rows_text(rows: Seq<Triple>, d: Option<Seq<[bool; 3]>>)
    ensures
        rows_text(rows, d) == join_nl(row_lines(rows, d)),
    decreases rows.len(),
{
    reveal_strlit("\n");
    if rows.len() == 0 {
        assert(row_lines(rows, d) =~= Seq::<Seq<char>>::empty());
    } else {
        let k = rows.len() - 1;
        lemma_rows_text(rows.drop_last(), d);
        let last = "  "@ + triple_text(rows[k]) + row_flags(d, k);
        assert(row_lines(rows, d) =~= row_lines(rows.drop_last(), d) + seq![last]);
        lemma_join_nl_concat(row_lines(rows.drop_last(), d), seq![last]);
        lemma_join_nl_one(last);
    }
}

/// The written lines of a document, without their line feeds.
pub open spec fn doc_lines(p: Poscar) -> Seq<Seq<char>> {
    seq![p.comment@, scale_line(p)] + lattice_lines(p) + species_lines(p) + header_lines(p)
        + row_lines(p.positions.rows(), dyn_view(p)) + velocity_lines(p)
}

/// The written scale line.
pub open spec fn scale_line(p: Poscar) -> Seq<char> {
    match p.scale {
        ScaleLine::Factor(s) => "  "@ + s@,
        ScaleLine::Volume(s) => "  -"@ + s@,
    }
}

/// The three written lattice vector lines.
pub open spec fn lattice_lines(p: Poscar) -> Seq<Seq<char>> {
    seq![
        "    "@ + triple_text(p.lattice_vectors@[0]),
        "    "@ + triple_text(p.lattice_vectors@[1]),
        "    "@ + triple_text(p.lattice_vectors@[2]),
    ]
}

/// The written species line, if any, and the counts line.
pub open spec fn species_lines(p: Poscar) -> Seq<Seq<char>> {
    let sym = match p.group_symbols {
        Some(s) => seq!["  "@ + join_padded(symbols_view(s@))],
        None => seq![],
    };
    sym + seq!["  "@ + join_padded(counts_view(p.group_counts@))]
}

/// The written flag line, if any, and the coordinate-system line.
pub open spec fn header_lines(p: Poscar) -> Seq<Seq<char>> {
    let sd = if p.dynamics is Some {
        seq!["Selective Dynamics"@]
    } else {
        seq![]
    };
    let hdr = if p.positions is Cart {
        seq!["Cartesian"@]
    } else {
        seq!["Direct"@]
    };
    sd + hdr
}

/// The flags of a document, if it has them.
pub open spec fn dyn_view(p: Poscar) -> Option<Seq<[bool; 3]>> {
    match p.dynamics {
        Some(d) => Some(d@),
        None => None,
    }
}

/// The written velocity block, if any.
pub open spec fn velocity_lines(p: Poscar) -> Seq<Seq<char>> {
    match p.velocities {
        Some(v) => (if v is Cart {
            seq!["Cartesian"@]
        } else {
            seq![seq![]]
        }) + row_lines(v.rows(), None),
        None => seq![],
    }
}

proof fn lemma_head(p: Poscar)
    ensures
        join_nl(seq![p.comment@, scale_line(p)]) == head_text(p),
{
    reveal_strlit("\n");
    lemma_join_nl_concat(seq![p.comment@], seq![scale_line(p)]);
    lemma_join_nl_one(p.comment@);
    lemma_join_nl_one(scale_line(p));
    assert(seq![p.comment@] + seq![scale_line(p)] =~= seq![p.comment@, scale_line(p)]);
    assert(join_nl(seq![p.comment@, scale_line(p)]) =~= head_text(p));
}

proof fn lemma_lattice(p: Poscar)
    ensures
        join_nl(lattice_lines(p)) == lattice_text(p),
{
    reveal_strlit("\n");
    let lat = lattice_lines(p);
    lemma_join_nl_concat(seq![lat[0]], seq![lat[1], lat[2]]);
    lemma_join_nl_concat(seq![lat[1]], seq![lat[2]]);
    lemma_join_nl_one(lat[0]);
    lemma_join_nl_one(lat[1]);
    lemma_join_nl_one(lat[2]);
    assert(seq![lat[0]] + seq![lat[1], lat[2]] =~= lat);
    assert(seq![lat[1]] + seq![lat[2]] =~= seq![lat[1], lat[2]]);
    assert(join_nl(lat) =~= lattice_text(p));
}

proof fn lemma_species(p: Poscar)
    ensures
        join_nl(species_lines(p)) == species_text(p),
{
    reveal_strlit("\n");
    let sym = match p.group_symbols {
        Some(s) => seq!["  "@ + join_padded(symbols_view(s@))],
        None => seq![],
    };
    let cnt = seq!["  "@ + join_padded(counts_view(p.group_counts@))];
    lemma_join_nl_concat(sym, cnt);
    lemma_join_nl_one(cnt[0]);
    if p.group_symbols is Some {
        lemma_join_nl_one(sym[0]);
    } else {
        assert(join_nl(sym) =~= Seq::<char>::empty());
    }
    assert(join_nl(species_lines(p)) =~= species_text(p));
}

proof fn lemma_header(p: Poscar)
    ensures
        join_nl(header_lines(p)) == header_text(p),
{
    reveal_strlit("Selective Dynamics\n");
    reveal_strlit("Selective Dynamics");
    reveal_strlit("Cartesian\n");
    reveal_strlit("Cartesian");
    reveal_strlit("Direct\n");
    reveal_strlit("Direct");
    let sd = if p.dynamics is Some {
        seq!["Selective Dynamics"@]
    } else {
        seq![]
    };
    let hdr = if p.positions is Cart {
        seq!["Cartesian"@]
    } else {
        seq!["Direct"@]
    };
    lemma_join_nl_concat(sd, hdr);
    lemma_join_nl_one(hdr[0]);
    if p.dynamics is Some {
        lemma_join_nl_one(sd[0]);
    } else {
        assert(join_nl(sd) =~= Seq::<char>::empty());
    }
    assert(join_nl(header_lines(p)) =~= header_text(p));
}

proof fn lemma_velocity_text(p: Poscar)
    ensures
        join_nl(velocity_lines(p)) == velocities_text(p),
{
    reveal_strlit("\n");
    reveal_strlit("Cartesian\n");
    reveal_strlit("Cartesian");
    if let Some(v) = p.velocities {
        let h = if v is Cart {
            seq!["Cartesian"@]
        } else {
            seq![seq![]]
        };
        lemma_join_nl_concat(h, row_lines(v.rows(), None));
        lemma_join_nl_one(h[0]);
        lemma_rows_text(v.rows(), None);
        assert(join_nl(velocity_lines(p)) =~= velocities_text(p));
    } else {
        assert(join_nl(velocity_lines(p)) =~= velocities_text(p));
    }
}

proof fn lemma_doc_text(p: Poscar)
    ensures
        poscar_text(p) == join_nl(doc_lines(p)),
{
    let l0 = seq![p.comment@, scale_line(p)];
    let lat = lattice_lines(p);
    let sp = species_lines(p);
    let hd = header_lines(p);
    let pos = row_lines(p.positions.rows(), dyn_view(p));
    let vel = velocity_lines(p);
    lemma_head(p);
    lemma_lattice(p);
    lemma_species(p);
    lemma_header(p);
    lemma_rows_text(p.positions.rows(), dyn_view(p));
    lemma_velocity_text(p);
    lemma_join_nl_concat(l0, lat);
    lemma_join_nl_concat(l0 + lat, sp);
    lemma_join_nl_concat(l0 + lat + sp, hd);
    lemma_join_nl_concat(l0 + lat + sp + hd, pos);
    lemma_join_nl_concat(l0 + lat + sp + hd + pos, vel);
    assert(l0 + lat + sp + hd + pos + vel =~= doc_lines(p));
}

/// Where the flag line of a written document stands.
pub open spec fn flag_at(p: Poscar) -> int {
    if p.group_symbols is Some {
        7
    } else {
        6
    }
}

/// Where the coordinate-system line of a written document stands.
pub open spec fn header_at(p: Poscar) -> int {
    if p.dynamics is Some {
        flag_at(p) + 1
    } else {
        flag_at(p)
    }
}

/// The written species line.
pub open spec fn symbol_line(p: Poscar) -> Seq<char> {
    "  "@ + join_padded(symbols_view(p.group_symbols->Some_0@))
}

/// The written counts line.
pub open spec fn count_line(p: Poscar) -> Seq<char> {
    "  "@ + join_padded(counts_view(p.group_counts@))
}

/// The written coordinate-system line of the positions.
pub open spec fn header_line(p: Poscar) -> Seq<char> {
    if p.positions is Cart {
        "Cartesian"@
    } else {
        "Direct"@
    }
}

/// The written header of a velocity block: empty for direct velocities.
pub open spec fn velocity_header(v: Coords) -> Seq<char> {
    if v is Cart {
        "Cartesian"@
    } else {
        seq![]
    }
}

proof fn lemma_doc_index(p: Poscar)
    requires
        p.wf(),
    ensures
        ({
            let all = doc_lines(p);
            let n = p.n() as int;
            let ps = header_at(p) + 1;
            &&& all.len() == ps + n + (if p.velocities is Some {
                1 + n
            } else {
                0
            })
            &&& all[0] == p.comment@
            &&& all[1] == scale_line(p)
            &&& all[2] == "    "@ + triple_text(p.lattice_vectors@[0])
            &&& all[3] == "    "@ + triple_text(p.lattice_vectors@[1])
            &&& all[4] == "    "@ + triple_text(p.lattice_vectors@[2])
            &&& p.group_symbols is Some ==> all[5] == symbol_line(p)
            &&& all[flag_at(p) - 1] == count_line(p)
            &&& p.dynamics is Some ==> all[flag_at(p)] == "Selective Dynamics"@
            &&& all[header_at(p)] == header_line(p)
            &&& forall|k: int|
                0 <= k < n ==> #[trigger] all[ps + k] == row_lines(p.positions.rows(), dyn_view(p))[k]
            &&& p.velocities matches Some(v) ==> {
                &&& all[ps + n] == velocity_header(v)
                &&& forall|k: int|
                    0 <= k < n ==> #[trigger] all[ps + n + 1 + k] == row_lines(v.rows(), None)[k]
            }
        }),
{
    let all = doc_lines(p);
    let n = p.n() as int;
    let a = seq![p.comment@, scale_line(p)] + lattice_lines(p);
    let b = a + species_lines(p);
    let c = b + header_lines(p);
    let pos = row_lines(p.positions.rows(), dyn_view(p));
    let d = c + pos;
    assert(all == d + velocity_lines(p));
    assert(a.len() == 5);
    assert(b.len() == flag_at(p));
    assert(c.len() == header_at(p) + 1);
    assert(pos.len() == n);
    assert(b[flag_at(p) - 1] == count_line(p));
    assert(c[header_at(p)] == header_line(p));
    if p.dynamics is Some {
        assert(c[flag_at(p)] == "Selective Dynamics"@);
    }
    if p.group_symbols is Some {
        assert(b[5] == symbol_line(p));
    }
    assert forall|k: int| 0 <= k < n implies #[trigger] all[header_at(p) + 1 + k] == pos[k] by {
        assert(d[c.len() + k] == pos[k]);
    }
    if let Some(v) = p.velocities {
        let vl = velocity_lines(p);
        assert(vl[0] == velocity_header(v));
        assert forall|k: int| 0 <= k < n implies #[trigger] all[header_at(p) + 1 + n + 1 + k]
            == row_lines(v.rows(), None)[k] by {
            assert(vl[1 + k] == row_lines(v.rows(), None)[k]);
        }
    } else {
        assert(velocity_lines(p) =~= Seq::<Seq<char>>::empty());
    }
}

/// True of a text with no line feed and no carriage return.
pub open spec fn clean(l: Seq<char>) -> bool {
    forall|i: int| 0 <= i < l.len() ==> #[trigger] l[i] != '\n' && l[i] != '\r'
}

proof fn lemma_clean_add(a: Seq<char>, b: Seq<char>)
    requires
        clean(a),
        clean(b),
    ensures
        clean(a + b),
{
    assert forall|i: int| 0 <= i < (a + b).len() implies #[trigger] (a + b)[i] != '\n' && (a
        + b)[i] != '\r' by {
        if i < a.len() {
            assert((a + b)[i] == a[i]);
        } else {
            assert((a + b)[i] == b[i - a.len()]);
        }
    }
}

proof fn lemma_clean_plain(l: Seq<char>)
    requires
        clean(l),
    ensures
        plain_line(l),
{
    if l.contains('\n') {
        let i = choose|i: int| 0 <= i < l.len() && l[i] == '\n';
        assert(l[i] != '\n');
    }
    if l.len() > 0 {
        assert(l[l.len() - 1] != '\r');
    }
}

proof fn lemma_solid_clean(s: Seq<char>)
    requires
        solid(s),
    ensures
        clean(s),
{
    assert forall|i: int| 0 <= i < s.len() implies #[trigger] s[i] != '\n' && s[i] != '\r' by {
        assert(!is_unicode_ws(s[i]));
    }
}

proof fn lemma_word_like_clean(s: Seq<char>)
    requires
        word_like(s),
    ensures
        clean(s),
{
    assert forall|i: int| 0 <= i < s.len() implies #[trigger] s[i] != '\n' && s[i] != '\r' by {
        assert(!is_ws(s[i]));
    }
}

proof fn lemma_spaces_clean()
    ensures
        clean(" "@),
        clean("  "@),
        clean("  -"@),
        clean("    "@),
        clean("Selective Dynamics"@),
        clean("Cartesian"@),
        clean("Direct"@),
        clean(seq![]),
{
    reveal_strlit(" ");
    reveal_strlit("  ");
    reveal_strlit("  -");
    reveal_strlit("    ");
    reveal_strlit("Selective Dynamics");
    reveal_strlit("Cartesian");
    reveal_strlit("Direct");
}

proof fn lemma_padded_clean(v: Seq<Seq<char>>)
    requires
        forall|k: int| 0 <= k < v.len() ==> word_like(#[trigger] v[k]),
    ensures
        clean(join_padded(v)),
    decreases v.len(),
{
    lemma_spaces_clean();
    if v.len() > 0 {
        let last = v[v.len() - 1];
        assert(word_like(last));
        lemma_word_like_clean(last);
        if last.len() == 1 {
            reveal_strlit(" ");
            assert(clean(seq![' ']));
            lemma_clean_add(seq![' '], last);
        }
        assert(clean(pad2(last)));
        if v.len() > 1 {
            let vp = v.drop_last();
            assert forall|k: int| 0 <= k < vp.len() implies word_like(#[trigger] vp[k]) by {
                assert(vp[k] == v[k]);
            }
            lemma_padded_clean(vp);
            lemma_clean_add(join_padded(vp), " "@);
            lemma_clean_add(join_padded(vp) + " "@, pad2(last));
        }
    }
}

proof fn lemma_triple_clean(t: Triple)
    requires
        is_real(t@[0]@),
        is_real(t@[1]@),
        is_real(t@[2]@),
    ensures
        clean(triple_text(t)),
{
    lemma_spaces_clean();
    lemma_real_solid(t@[0]@);
    lemma_real_solid(t@[1]@);
    lemma_real_solid(t@[2]@);
    lemma_solid_clean(t@[0]@);
    lemma_solid_clean(t@[1]@);
    lemma_solid_clean(t@[2]@);
    lemma_clean_add(t@[0]@, " "@);
    lemma_clean_add(t@[0]@ + " "@, t@[1]@);
    lemma_clean_add(t@[0]@ + " "@ + t@[1]@, " "@);
    lemma_clean_add(t@[0]@ + " "@ + t@[1]@ + " "@, t@[2]@);
}

proof fn lemma_row_clean(rows: Seq<Triple>, d: Option<Seq<[bool; 3]>>, k: int)
    requires
        0 <= k < rows.len(),
        is_real3(rows[k]),
    ensures
        clean(row_lines(rows, d)[k]),
{
    lemma_spaces_clean();
    lemma_triple_clean(rows[k]);
    lemma_clean_add("  "@, triple_text(rows[k]));
    if let Some(dd) = d {
        assert(clean(flags_text(dd[k])));
        lemma_clean_add(" "@, flags_text(dd[k]));
        lemma_clean_add("  "@ + triple_text(rows[k]), row_flags(d, k));
    } else {
        assert("  "@ + triple_text(rows[k]) + row_flags(d, k) =~= "  "@ + triple_text(rows[k]));
    }
}

/// The assumptions under which a written document reads back the same: a
/// comment that does not end in a carriage return, and a written species line
/// that does not read as a counts line (its first character that is no white
/// space is no digit).
pub open spec fn writable(p: Poscar) -> bool {
    &&& p.wf()
    &&& plain_line(p.comment@)
    &&& p.group_symbols is Some ==> !starts_with_digit(symbol_line(p))
    &&& p.positions.rows().len() <= usize::MAX
}

proof fn lemma_counts_solid(p: Poscar)
    ensures
        forall|k: int|
            0 <= k < counts_view(p.group_counts@).len() ==> solid(
                #[trigger] counts_view(p.group_counts@)[k],
            ),
        forall|k: int|
            0 <= k < counts_view(p.group_counts@).len() ==> word_like(
                #[trigger] counts_view(p.group_counts@)[k],
            ),
{
    assert forall|k: int| 0 <= k < counts_view(p.group_counts@).len() implies solid(
        #[trigger] counts_view(p.group_counts@)[k],
    ) by {
        lemma_dec(p.group_counts@[k] as nat);
        lemma_digits_solid(dec(p.group_counts@[k] as nat));
    }
    assert forall|k: int| 0 <= k < counts_view(p.group_counts@).len() implies word_like(
        #[trigger] counts_view(p.group_counts@)[k],
    ) by {
        lemma_solid_word_like(counts_view(p.group_counts@)[k]);
    }
}

proof fn lemma_symbols_word_like(p: Poscar)
    requires
        writable(p),
        p.group_symbols is Some,
    ensures
        forall|k: int|
            0 <= k < symbols_view(p.group_symbols->Some_0@).len() ==> word_like(
                #[trigger] symbols_view(p.group_symbols->Some_0@)[k],
            ),
{
    let s = p.group_symbols->Some_0@;
    assert forall|k: int| 0 <= k < symbols_view(s).len() implies word_like(
        #[trigger] symbols_view(s)[k],
    ) by {
        assert(symbols_view(s)[k] == s[k]@);
        assert(is_symbol(s[k]@));
    }
}

/// The scale line: spaces, then the scale as one word.
pub open spec fn scale_word(p: Poscar) -> Seq<char> {
    match p.scale {
        ScaleLine::Factor(s) => s@,
        ScaleLine::Volume(s) => seq!['-'] + s@,
    }
}

proof fn lemma_scale_line(p: Poscar)
    requires
        p.wf(),
    ensures
        scale_line(p) == "  "@ + scale_word(p),
        solid(scale_word(p)),
{
    reveal_strlit("  ");
    reveal_strlit("  -");
    match p.scale {
        ScaleLine::Factor(s) => {
            lemma_real_solid(s@);
        },
        ScaleLine::Volume(s) => {
            assert("  -"@ + s@ =~= "  "@ + (seq!['-'] + s@));
            lemma_real_solid(seq!['-'] + s@);
        },
    }
}

proof fn lemma_all_plain(p: Poscar)
    requires
        writable(p),
    ensures
        forall|i: int| 0 <= i < doc_lines(p).len() ==> plain_line(#[trigger] doc_lines(p)[i]),
{
    let all = doc_lines(p);
    let n = p.n() as int;
    let ps = header_at(p) + 1;
    lemma_doc_index(p);
    lemma_spaces_clean();
    lemma_scale_line(p);
    lemma_solid_clean(scale_word(p));
    lemma_clean_add("  "@, scale_word(p));
    lemma_counts_solid(p);
    lemma_padded_clean(counts_view(p.group_counts@));
    lemma_clean_add("  "@, join_padded(counts_view(p.group_counts@)));
    if p.group_symbols is Some {
        lemma_symbols_word_like(p);
        lemma_padded_clean(symbols_view(p.group_symbols->Some_0@));
        lemma_clean_add("  "@, join_padded(symbols_view(p.group_symbols->Some_0@)));
    }
    assert forall|i: int| 0 <= i < all.len() implies plain_line(#[trigger] all[i]) by {
        if i == 0 {
        } else if i == 1 {
            lemma_clean_plain(all[1]);
        } else if i < 5 {
            let t = p.lattice_vectors@[i - 2];
            assert(is_real3(t));
            lemma_triple_clean(t);
            lemma_clean_add("    "@, triple_text(t));
            lemma_clean_plain(all[i]);
        } else if i < flag_at(p) - 1 {
            lemma_clean_plain(all[i]);
        } else if i == flag_at(p) - 1 {
            lemma_clean_plain(all[i]);
        } else if i <= header_at(p) {
            lemma_clean_plain(all[i]);
        } else if i < ps + n {
            let k = i - ps;
            assert(all[ps + k] == row_lines(p.positions.rows(), dyn_view(p))[k]);
            lemma_row_clean(p.positions.rows(), dyn_view(p), k);
            lemma_clean_plain(all[i]);
        } else {
            let v = p.velocities->Some_0;
            if i == ps + n {
                lemma_clean_plain(all[i]);
            } else {
                let k = i - ps - n - 1;
                assert(all[ps + n + 1 + k] == row_lines(v.rows(), None)[k]);
                lemma_row_clean(v.rows(), None, k);
                lemma_clean_plain(all[i]);
            }
        }
    }
}

proof fn lemma_skip_unicode_run(s: Seq<char>, i: int, a: int)
    requires
        0 <= i <= a < s.len(),
        forall|j: int| i <= j < a ==> is_ws(#[trigger] s[j]),
        !is_unicode_ws(s[a]),
    ensures
        skip_unicode_ws(s, i) == a,
    decreases a - i,
{
    if i < a {
        assert(is_ws(s[i]));
        lemma_skip_unicode_run(s, i + 1, a);
    }
}

/// The first character of a line that is no white space is the first
/// character of its first word.
proof fn lemma_first_char(l: Seq<char>, w: Seq<char>)
    requires
        words_of(l).len() >= 1,
        word_text(l, 0) == w,
        solid(w),
    ensures
        skip_unicode_ws(l, 0) < l.len(),
        l[skip_unicode_ws(l, 0)] == w[0],
        !is_trim_empty(l),
{
    lemma_no_words_iff_blank(l);
    lemma_skip_ws_bounds(l, 0);
    let a = words_of(l)[0].0;
    lemma_spans_bounded(l, 0);
    assert(l.subrange(a, words_of(l)[0].1)[0] == l[a]);
    lemma_skip_unicode_run(l, 0, a);
}

/// Where a written line splits into words, and what they are.
proof fn lemma_line_words(p: Poscar)
    requires
        writable(p),
    ensures
        ({
            let all = doc_lines(p);
            let n = p.n() as int;
            let ps = header_at(p) + 1;
            &&& words_of(all[1]).len() == 1
            &&& word_text(all[1], 0) == scale_word(p)
            &&& forall|i: int|
                0 <= i < 3 ==> words_of(#[trigger] all[2 + i]).len() == 3 && forall|j: int|
                    0 <= j < 3 ==> #[trigger] word_text(all[2 + i], j) == p.lattice_vectors@[i]@[j]@
            &&& words_of(count_line(p)).len() == p.group_counts@.len()
            &&& forall|k: int|
                0 <= k < p.group_counts@.len() ==> #[trigger] word_text(count_line(p), k) == dec(
                    p.group_counts@[k] as nat,
                )
            &&& p.group_symbols matches Some(s) ==> {
                &&& words_of(symbol_line(p)).len() == s@.len()
                &&& forall|k: int| 0 <= k < s@.len() ==> #[trigger] word_text(symbol_line(p), k) == s@[k]@
            }
        }),
{
    let all = doc_lines(p);
    lemma_doc_index(p);
    reveal_strlit("  ");
    reveal_strlit("    ");
    lemma_scale_line(p);
    lemma_no_words_empty();
    lemma_solid_word_like(scale_word(p));
    lemma_extend(Seq::<char>::empty(), "  "@, scale_word(p));
    assert(Seq::<char>::empty() + "  "@ + scale_word(p) =~= all[1]);
    assert(blank_pad("    "@));
    assert forall|i: int| 0 <= i < 3 implies words_of(#[trigger] all[2 + i]).len() == 3 && forall|
        j: int,
    | 0 <= j < 3 ==> #[trigger] word_text(all[2 + i], j) == p.lattice_vectors@[i]@[j]@ by {
        lemma_triple_line("    "@, p.lattice_vectors@[i]);
    }
    lemma_counts_solid(p);
    lemma_padded_words(counts_view(p.group_counts@));
    assert forall|k: int| 0 <= k < p.group_counts@.len() implies #[trigger] word_text(
        count_line(p),
        k,
    ) == dec(p.group_counts@[k] as nat) by {
        assert(counts_view(p.group_counts@)[k] == dec(p.group_counts@[k] as nat));
    }
    if let Some(s) = p.group_symbols {
        lemma_symbols_word_like(p);
        lemma_padded_words(symbols_view(s@));
        assert forall|k: int| 0 <= k < s@.len() implies #[trigger] word_text(symbol_line(p), k)
            == s@[k]@ by {
            assert(symbols_view(s@)[k] == s@[k]@);
        }
    }
}

proof fn lemma_row_words(rows: Seq<Triple>, d: Option<Seq<[bool; 3]>>, k: int)
    requires
        0 <= k < rows.len(),
        is_real3(rows[k]),
    ensures
        triple_ok(row_lines(rows, d)[k]),
        reads_triple(rows[k], row_lines(rows, d)[k]),
        d matches Some(dd) ==> flags_ok(row_lines(rows, d)[k]) && flags_read(
            dd[k],
            row_lines(rows, d)[k],
        ),
        words_of(row_lines(rows, d)[k]).len() >= 1,
        word_text(row_lines(rows, d)[k], 0) == rows[k]@[0]@,
{
    reveal_strlit("  ");
    assert(blank_pad("  "@));
    let l = row_lines(rows, d)[k];
    let t = rows[k];
    if let Some(dd) = d {
        lemma_flag_line("  "@, t, dd[k]);
        assert(l == "  "@ + triple_text(t) + " "@ + flags_text(dd[k]));
        assert(word_text(l, 3int + 0) == seq![flag_char(dd[k]@[0])]);
        assert(word_text(l, 3int + 1) == seq![flag_char(dd[k]@[1])]);
        assert(word_text(l, 3int + 2) == seq![flag_char(dd[k]@[2])]);
        assert(seq![flag_char(dd[k]@[0])].drop_first() =~= Seq::<char>::empty());
        assert forall|j: int| 0 <= j < 3 implies Some(#[trigger] dd[k]@[j]) == logical_value(
            word_text(l, 3 + j),
        ) by {
            assert(word_text(l, 3 + j) == seq![flag_char(dd[k]@[j])]);
        }
    } else {
        lemma_triple_line("  "@, t);
        assert(l =~= "  "@ + triple_text(t));
    }
    assert(word_text(l, 0) == t@[0]@);
    assert(word_text(l, 1) == t@[1]@);
    assert(word_text(l, 2) == t@[2]@);
}

proof fn lemma_unsigned_dec(c: usize)
    ensures
        unsigned_value(dec(c as nat)) == Some(c as u64),
{
    lemma_dec(c as nat);
}

/// The written lines of a document parse, with the counts, the places and the
/// velocity decision that the document gives.
#[verifier::rlimit(30)]
proof fn lemma_accepts(p: Poscar)
    requires
        writable(p),
    ensures
        accepts(doc_lines(p)),
        after_counts(doc_lines(p)) == flag_at(p),
        atoms(doc_lines(p)) == p.n(),
        counts_of(doc_lines(p)[flag_at(p) - 1]) == p.group_counts@,
        (p.dynamics is Some) == (flag_at(p) < doc_lines(p).len() && is_selective_line(
            doc_lines(p)[flag_at(p)],
        )),
        velocity_shape(doc_lines(p), header_at(p) + 1 + p.n()) == match p.velocities {
            Some(v) => VelocityShape::Present(v is Cart),
            None => VelocityShape::Absent,
        },
{
    reveal_strlit("Selective Dynamics");
    reveal_strlit("Cartesian");
    reveal_strlit("Direct");
    let all = doc_lines(p);
    let n = p.n() as int;
    let ps = header_at(p) + 1;
    lemma_doc_index(p);
    lemma_line_words(p);
    lemma_counts_solid(p);
    // species and counts
    let c0 = p.group_counts@[0];
    lemma_dec(c0 as nat);
    lemma_digits_solid(dec(c0 as nat));
    lemma_first_char(count_line(p), dec(c0 as nat));
    assert(is_digit(dec(c0 as nat)[0]));
    if let Some(s) = p.group_symbols {
        assert(!starts_with_digit(all[5]));
        assert forall|i: int| 0 <= i < words_of(all[5]).len() implies is_symbol(
            #[trigger] word_text(all[5], i),
        ) by {
            assert(is_symbol(s@[i]@));
        }
    } else {
        assert(starts_with_digit(all[5]));
    }
    let cl = count_line(p);
    assert forall|i: int| 0 <= i < p.group_counts@.len() implies unsigned_value(
        word_text(cl, i),
    ) == Some(#[trigger] p.group_counts@[i] as u64) by {
        lemma_unsigned_dec(p.group_counts@[i]);
    }
    assert(counts_read(p.group_counts@, cl));
    lemma_counts_of(p.group_counts@, cl);
    assert(species_ok(all, 5));
    // scale
    match p.scale {
        ScaleLine::Factor(s) => {
            assert(scale_sign(word_text(all[1], 0)) == ScaleSign::Positive);
        },
        ScaleLine::Volume(s) => {
            assert(scale_sign(word_text(all[1], 0)) == ScaleSign::Negative);
        },
    }
    assert(scale_ok(all[1]));
    // lattice
    assert forall|i: int| 0 <= i < 3 implies #[trigger] triple_ok(all[2 + i]) by {
        let t = p.lattice_vectors@[i];
        assert(is_real3(t));
        assert(word_text(all[2 + i], 0) == t@[0]@);
        assert(word_text(all[2 + i], 1) == t@[1]@);
        assert(word_text(all[2 + i], 2) == t@[2]@);
    }
    assert(triple_ok(all[2int + 0]));
    assert(triple_ok(all[2int + 1]));
    assert(triple_ok(all[2int + 2]));
    // positions
    let sd = p.dynamics is Some;
    let rows = p.positions.rows();
    assert forall|k: int| 0 <= k < n implies triple_ok(#[trigger] all[ps + k]) && (sd ==> flags_ok(
        all[ps + k],
    )) by {
        assert(is_real3(rows[k]));
        lemma_row_words(rows, dyn_view(p), k);
    }
    assert(positions_ok(all, ps, n, sd));
    // velocities
    if let Some(v) = p.velocities {
        let vr = v.rows();
        assert forall|k: int| 0 <= k < n implies triple_ok(#[trigger] all[ps + n + 1 + k]) by {
            assert(is_real3(vr[k]));
            lemma_row_words(vr, None, k);
        }
        assert forall|k: int| 0 <= k < n implies triple_ok(#[trigger] all[(ps + n + 1) + k]) by {
            assert(all[(ps + n + 1) + k] == all[ps + n + 1 + k]);
        }
        assert(positions_ok(all, ps + n + 1, n, false));
        if v is Cart {
            assert(all[ps + n] == "Cartesian"@);
            assert(all[ps + n][0] == 'C');
            assert(!is_trim_empty(all[ps + n]));
            assert(coord_line_type(all[ps + n]) == CoordLineType::Cartesian);
        } else {
            assert(is_real3(vr[0]));
            lemma_row_words(vr, None, 0);
            lemma_real_solid(vr[0]@[0]@);
            lemma_first_char(all[ps + n + 1 + 0], vr[0]@[0]@);
            assert(all[ps + n] == Seq::<char>::empty());
            assert(is_trim_empty(all[ps + n]));
            assert(!is_trim_empty(all[ps + n + 1]));
        }
        assert(velocity_shape(all, ps + n) == VelocityShape::Present(v is Cart));
    } else {
        assert(velocity_shape(all, ps + n) == VelocityShape::Absent);
    }
    assert(after_counts(all) == flag_at(p));
    assert(atoms(all) == p.n());
    if sd {
        assert(all[flag_at(p)][0] == 'S');
    } else {
        assert(all[flag_at(p)] == header_line(p));
        assert(all[flag_at(p)][0] == 'C' || all[flag_at(p)][0] == 'D');
    }
    assert(header_at(p) < all.len());
}

/// The text written for a document parses: for a document that meets
/// `writable`, the parser accepts the lines of the written text, so reading
/// it back succeeds.
pub proof fn lemma_written_text_parses(p: Poscar)
    requires
        writable(p),
    ensures
        accepts(lines_of(poscar_text(p))),
{
    lemma_doc_text(p);
    lemma_all_plain(p);
    lemma_lines_of_join(doc_lines(p));
    lemma_accepts(p);
}

/// True when two triples hold the same texts.
pub open spec fn same_triple(a: Triple, b: Triple) -> bool {
    &&& a@[0]@ == b@[0]@
    &&& a@[1]@ == b@[1]@
    &&& a@[2]@ == b@[2]@
}

/// True when two coordinate blocks are in the same system with the same texts.
pub open spec fn same_coords(a: Coords, b: Coords) -> bool {
    &&& (a is Cart) == (b is Cart)
    &&& a.rows().len() == b.rows().len()
    &&& forall|k: int| 0 <= k < a.rows().len() ==> same_triple(#[trigger] a.rows()[k], b.rows()[k])
}

/// True when two documents are equal field by field, texts by their
/// characters.
pub open spec fn same_doc(q: Poscar, p: Poscar) -> bool {
    &&& q.comment@ == p.comment@
    &&& match (q.scale, p.scale) {
        (ScaleLine::Factor(x), ScaleLine::Factor(y)) => x@ == y@,
        (ScaleLine::Volume(x), ScaleLine::Volume(y)) => x@ == y@,
        _ => false,
    }
    &&& forall|i: int| 0 <= i < 3 ==> same_triple(#[trigger] q.lattice_vectors@[i], p.lattice_vectors@[i])
    &&& match (q.group_symbols, p.group_symbols) {
        (None, None) => true,
        (Some(a), Some(b)) => a@.len() == b@.len() && forall|i: int|
            0 <= i < a@.len() ==> (#[trigger] a@[i])@ == b@[i]@,
        _ => false,
    }
    &&& q.group_counts@ == p.group_counts@
    &&& same_coords(q.positions, p.positions)
    &&& match (q.dynamics, p.dynamics) {
        (None, None) => true,
        (Some(a), Some(b)) => a@.len() == b@.len() && forall|k: int, j: int|
            0 <= k < a@.len() && 0 <= j < 3 ==> (#[trigger] a@[k]@[j]) == b@[k]@[j],
        _ => false,
    }
    &&& match (q.velocities, p.velocities) {
        (None, None) => true,
        (Some(a), Some(b)) => same_coords(a, b),
        _ => false,
    }
}

/// Writing a document and reading the text back gives the same document, for
/// a document that meets `writable`: the text is read successfully, and any
/// document read from it is equal to the original field by field.
#[verifier::rlimit(30)]
pub proof fn lemma_round_trip(p: Poscar, q: Poscar)
    requires
        writable(p),
        read_from(q, lines_of(poscar_text(p))),
    ensures
        accepts(lines_of(poscar_text(p))),
        same_doc(q, p),
{
    reveal_strlit("Cartesian");
    reveal_strlit("Direct");
    let all = doc_lines(p);
    lemma_doc_text(p);
    lemma_all_plain(p);
    lemma_lines_of_join(all);
    assert(lines_of(poscar_text(p)) == all);
    lemma_doc_index(p);
    lemma_line_words(p);
    lemma_accepts(p);
    let n = p.n() as int;
    let ps = header_at(p) + 1;
    // scale
    match p.scale {
        ScaleLine::Factor(s) => {},
        ScaleLine::Volume(s) => {
            assert((seq!['-'] + s@).drop_first() =~= s@);
        },
    }
    // lattice
    assert forall|i: int| 0 <= i < 3 implies same_triple(
        #[trigger] q.lattice_vectors@[i],
        p.lattice_vectors@[i],
    ) by {
        assert(reads_triple(q.lattice_vectors@[i], all[2 + i]));
        assert(q.lattice_vectors@[i]@[0]@ == word_text(all[2 + i], 0));
        assert(q.lattice_vectors@[i]@[1]@ == word_text(all[2 + i], 1));
        assert(q.lattice_vectors@[i]@[2]@ == word_text(all[2 + i], 2));
    }
    // species and counts
    assert((q.group_symbols is None) == (p.group_symbols is None));
    lemma_counts_of(q.group_counts@, all[flag_at(p) - 1]);
    assert(q.group_counts@ == p.group_counts@);
    if let Some(b) = p.group_symbols {
        let a = q.group_symbols->Some_0;
        assert(symbols_read(a@, all[5]));
        assert forall|i: int| 0 <= i < a@.len() implies (#[trigger] a@[i])@ == b@[i]@ by {
            assert(a@[i]@ == word_text(all[5], i));
        }
    }
    assert(q.n() == p.n());
    assert((q.dynamics is Some) == (p.dynamics is Some));
    // positions
    if p.positions is Cart {
        assert(all[header_at(p)][0] == 'C');
    } else {
        assert(all[header_at(p)][0] == 'D');
    }
    let qr = q.positions.rows();
    let pr = p.positions.rows();
    assert forall|k: int| 0 <= k < qr.len() implies same_triple(#[trigger] qr[k], pr[k]) by {
        assert(reads_triple(qr[k], all[ps + k]));
        assert(is_real3(pr[k]));
        lemma_row_words(pr, dyn_view(p), k);
        assert(qr[k]@[0]@ == word_text(all[ps + k], 0));
        assert(qr[k]@[1]@ == word_text(all[ps + k], 1));
        assert(qr[k]@[2]@ == word_text(all[ps + k], 2));
    }
    if let Some(b) = p.dynamics {
        let a = q.dynamics->Some_0;
        assert forall|k: int, j: int| 0 <= k < a@.len() && 0 <= j < 3 implies (#[trigger] a@[k]@[j])
            == b@[k]@[j] by {
            assert(is_real3(pr[k]));
            lemma_row_words(pr, dyn_view(p), k);
            assert(flags_read(a@[k], all[ps + k]));
            assert(Some(a@[k]@[j]) == logical_value(word_text(all[ps + k], 3 + j)));
            assert(Some(b@[k]@[j]) == logical_value(word_text(all[ps + k], 3 + j)));
        }
    }
    // velocities
    if let Some(b) = p.velocities {
        let a = q.velocities->Some_0;
        let br = b.rows();
        let ar = a.rows();
        assert forall|k: int| 0 <= k < ar.len() implies same_triple(#[trigger] ar[k], br[k]) by {
            assert(reads_triple(ar[k], all[ps + n + 1 + k]));
            assert(is_real3(br[k]));
            lemma_row_words(br, None, k);
            assert(ar[k]@[0]@ == word_text(all[ps + n + 1 + k], 0));
            assert(ar[k]@[1]@ == word_text(all[ps + n + 1 + k], 1));
            assert(ar[k]@[2]@ == word_text(all[ps + n + 1 + k], 2));
        }
    }
}

} // verus!
