//! Characters, lines and words: the raw text handling under the parser and
//! the writer.
use vstd::prelude::*;

verus! {

/// True of the four ASCII whitespace characters that separate words.
pub open spec fn is_ws(c: char) -> bool {
    c == ' ' || c == '\t' || c == '\r' || c == '\n'
}

/// True when every character of `s` is whitespace (an empty sequence included).
pub open spec fn is_blank(s: Seq<char>) -> bool {
    forall|i: int| 0 <= i < s.len() ==> is_ws(#[trigger] s[i])
}

pub fn is_ascii_whitespace(c: char) -> (r: bool)
    ensures
        r == is_ws(c),
{
    c == ' ' || c == '\t' || c == '\r' || c == '\n'
}

/// The characters of a string, in order.
pub fn chars_of(s: &str) -> (r: Vec<char>)
    ensures
        r@ == s@,
{
    let mut out: Vec<char> = Vec::new();
    broadcast use vstd::string::axiom_spec_iter;
    for c in it: s.chars()
        invariant
            it.seq() == s@,
            out@ == s@.subrange(0, it.index() as int),
    {
        out.push(c);
        proof {
            assert(out@ =~= s@.subrange(0, it.index() + 1));
        }
    }
    proof {
        assert(out@ =~= s@);
    }
    out
}

/// Relies on `String::push`: appends one character to the end of the string.
#[verifier::external_body]
pub(crate) fn push_char(s: &mut String, c: char)
    ensures
        final(s)@ == old(s)@.push(c),
{
    s.push(c);
}

/// A string holding the given characters.
pub fn string_of(cs: &[char]) -> (r: String)
    ensures
        r@ == cs@,
{
    let mut out = String::new();
    let mut i: usize = 0;
    while i < cs.len()
        invariant
            i <= cs@.len(),
            out@ == cs@.subrange(0, i as int),
        decreases cs@.len() - i,
    {
        push_char(&mut out, cs[i]);
        i = i + 1;
        proof {
            assert(out@ =~= cs@.subrange(0, i as int));
        }
    }
    proof {
        assert(out@ =~= cs@);
    }
    out
}

/// Appends the characters of `src` to `dst`.
pub fn append_chars(dst: &mut Vec<char>, src: &[char])
    ensures
        final(dst)@ == old(dst)@ + src@,
{
    let mut i: usize = 0;
    while i < src.len()
        invariant
            i <= src@.len(),
            dst@ == old(dst)@ + src@.subrange(0, i as int),
        decreases src@.len() - i,
    {
        dst.push(src[i]);
        i = i + 1;
        proof {
            assert(dst@ =~= old(dst)@ + src@.subrange(0, i as int));
        }
    }
    proof {
        assert(src@.subrange(0, src@.len() as int) =~= src@);
    }
}

/// The characters `s[start..end]`.
pub fn sub_chars(s: &[char], start: usize, end: usize) -> (r: Vec<char>)
    requires
        start <= end <= s@.len(),
    ensures
        r@ == s@.subrange(start as int, end as int),
{
    let mut out: Vec<char> = Vec::new();
    let mut i: usize = start;
    while i < end
        invariant
            start <= i <= end <= s@.len(),
            out@ == s@.subrange(start as int, i as int),
        decreases end - i,
    {
        out.push(s[i]);
        i = i + 1;
        proof {
            assert(out@ =~= s@.subrange(start as int, i as int));
        }
    }
    out
}

/// A line without its final carriage return, if it has one.
pub open spec fn strip_cr(l: Seq<char>) -> Seq<char> {
    if l.len() > 0 && l.last() == '\r' {
        l.drop_last()
    } else {
        l
    }
}

/// The lines of `s` that follow the partial line `cur`: each line ends at a
/// line feed, which is dropped with a carriage return just before it; a last
/// line without a line feed counts only when it is not empty, and keeps all
/// its characters.
pub open spec fn lines_after(s: Seq<char>, cur: Seq<char>) -> Seq<Seq<char>>
    decreases s.len(),
{
    if s.len() == 0 {
        if cur.len() == 0 {
            seq![]
        } else {
            seq![cur]
        }
    } else if s[0] == '\n' {
        seq![strip_cr(cur)] + lines_after(s.drop_first(), seq![])
    } else {
        lines_after(s.drop_first(), cur.push(s[0]))
    }
}

/// No line of a text holds a line feed.
pub proof fn lemma_lines_one_line(s: Seq<char>, cur: Seq<char>)
    requires
        forall|i: int| 0 <= i < cur.len() ==> #[trigger] cur[i] != '\n',
    ensures
        forall|k: int, i: int|
            0 <= k < lines_after(s, cur).len() && 0 <= i < lines_after(s, cur)[k].len() ==> #[trigger] lines_after(
                s,
                cur,
            )[k][i] != '\n',
    decreases s.len(),
{
    let sc = strip_cr(cur);
    assert forall|i: int| 0 <= i < sc.len() implies #[trigger] sc[i] != '\n' by {
        assert(sc[i] == cur[i]);
    }
    if s.len() > 0 {
        if s[0] == '\n' {
            lemma_lines_one_line(s.drop_first(), seq![]);
            let r = lines_after(s.drop_first(), seq![]);
            assert forall|k: int, i: int|
                0 <= k < lines_after(s, cur).len() && 0 <= i < lines_after(s, cur)[k].len() implies #[trigger] lines_after(
                s,
                cur,
            )[k][i] != '\n' by {
                if k > 0 {
                    assert(lines_after(s, cur)[k] == r[k - 1]);
                } else {
                    assert(lines_after(s, cur)[0] == sc);
                }
            }
        } else {
            let c2 = cur.push(s[0]);
            assert forall|i: int| 0 <= i < c2.len() implies #[trigger] c2[i] != '\n' by {
                if i < cur.len() {
                    assert(c2[i] == cur[i]);
                }
            }
            lemma_lines_one_line(s.drop_first(), c2);
            assert(lines_after(s, cur) == lines_after(s.drop_first(), c2));
        }
    } else if cur.len() > 0 {
        assert(lines_after(s, cur) == seq![cur]);
        assert forall|k: int, i: int|
            0 <= k < lines_after(s, cur).len() && 0 <= i < lines_after(s, cur)[k].len() implies #[trigger] lines_after(
            s,
            cur,
        )[k][i] != '\n' by {
            assert(lines_after(s, cur)[k] == cur);
        }
    }
}

/// The lines of a text.
pub open spec fn lines_of(s: Seq<char>) -> Seq<Seq<char>> {
    lines_after(s, seq![])
}

/// The views of a sequence of character vectors.
pub open spec fn views(v: Seq<Vec<char>>) -> Seq<Seq<char>> {
    v.map_values(|l: Vec<char>| l@)
}

fn finish_line(cur: &Vec<char>) -> (r: Vec<char>)
    ensures
        r@ == strip_cr(cur@),
{
    let n = cur.len();
    if n > 0 && cur[n - 1] == '\r' {
        sub_chars(cur.as_slice(), 0, n - 1)
    } else {
        sub_chars(cur.as_slice(), 0, n)
    }
}

/// Splits a text into lines, as a buffered reader hands them out.
pub fn split_lines(s: &[char]) -> (r: Vec<Vec<char>>)
    ensures
        views(r@) == lines_of(s@),
{
    let mut out: Vec<Vec<char>> = Vec::new();
    let mut cur: Vec<char> = Vec::new();
    let mut i: usize = 0;
    proof {
        assert(views(out@) =~= Seq::<Seq<char>>::empty());
        assert(s@.subrange(0, s@.len() as int) =~= s@);
        assert(cur@ =~= Seq::<char>::empty());
        assert(views(out@) + lines_of(s@) =~= lines_of(s@));
    }
    while i < s.len()
        invariant
            i <= s@.len(),
            views(out@) + lines_after(s@.subrange(i as int, s@.len() as int), cur@) == lines_of(
                s@,
            ),
        decreases s@.len() - i,
    {
        let ghost rest = s@.subrange(i as int, s@.len() as int);
        proof {
            assert(rest.drop_first() =~= s@.subrange(i + 1, s@.len() as int));
        }
        if s[i] == '\n' {
            let line = finish_line(&cur);
            let ghost old_out = out@;
            out.push(line);
            proof {
                assert(views(out@) =~= views(old_out) + seq![line@]);
                assert(views(out@) + lines_after(rest.drop_first(), seq![]) =~= views(old_out)
                    + lines_after(rest, cur@));
            }
            cur = Vec::new();
            proof {
                assert(cur@ =~= Seq::<char>::empty());
            }
        } else {
            cur.push(s[i]);
        }
        i = i + 1;
    }
    let ghost rest = s@.subrange(i as int, s@.len() as int);
    proof {
        assert(rest.len() == 0);
    }
    if cur.len() > 0 {
        let line = cur;
        let ghost old_out = out@;
        out.push(line);
        proof {
            assert(views(out@) =~= views(old_out) + seq![line@]);
        }
    }
    proof {
        if cur@.len() == 0 {
            assert(views(out@) + seq![] =~= views(out@));
        }
    }
    out
}

} // verus!
