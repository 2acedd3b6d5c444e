//! The writer: a document back to text, in one canonical layout.
use vstd::prelude::*;
use crate::error::{dec, decimal};
use crate::poscar::{Coords, Poscar, ScaleLine, Triple};
use crate::text::{append_chars, chars_of, string_of};

verus! {

/// A text right-aligned in a field of two characters.
pub open spec fn pad2(s: Seq<char>) -> Seq<char> {
    if s.len() == 0 {
        "  "@
    } else if s.len() == 1 {
        seq![' '] + s
    } else {
        s
    }
}

/// The texts, each right-aligned to two characters, with one space between.
pub open spec fn join_padded(v: Seq<Seq<char>>) -> Seq<char>
    decreases v.len(),
{
    if v.len() == 0 {
        seq![]
    } else if v.len() == 1 {
        pad2(v[0])
    } else {
        join_padded(v.drop_last()) + " "@ + pad2(v.last())
    }
}

/// Three reals with one space between.
pub open spec fn triple_text(t: Triple) -> Seq<char> {
    t@[0]@ + " "@ + t@[1]@ + " "@ + t@[2]@
}

pub open spec fn flag_char(b: bool) -> char {
    if b {
        'T'
    } else {
        'F'
    }
}

/// Three flags as `T` and `F`, with one space between.
pub open spec fn flags_text(f: [bool; 3]) -> Seq<char> {
    seq![flag_char(f@[0]), ' ', flag_char(f@[1]), ' ', flag_char(f@[2])]
}

/// The data lines of coordinates, each with its flags when `dyn_` has them.
pub open spec fn rows_text(rows: Seq<Triple>, dyn_: Option<Seq<[bool; 3]>>) -> Seq<char>
    decreases rows.len(),
{
    if rows.len() == 0 {
        seq![]
    } else {
        let k = rows.len() - 1;
        let flags = match dyn_ {
            Some(d) => " "@ + flags_text(d[k]),
            None => seq![],
        };
        rows_text(rows.drop_last(), dyn_) + "  "@ + triple_text(rows[k]) + flags + "\n"@
    }
}

pub open spec fn symbols_view(v: Seq<String>) -> Seq<Seq<char>> {
    v.map_values(|s: String| s@)
}

pub open spec fn counts_view(v: Seq<usize>) -> Seq<Seq<char>> {
    v.map_values(|c: usize| dec(c as nat))
}

/// The comment and scale lines.
pub open spec fn head_text(p: Poscar) -> Seq<char> {
    let scale = match p.scale {
        ScaleLine::Factor(s) => "  "@ + s@,
        ScaleLine::Volume(s) => "  -"@ + s@,
    };
    p.comment@ + "\n"@ + scale + "\n"@
}

/// The three lattice vector lines.
pub open spec fn lattice_text(p: Poscar) -> Seq<char> {
    "    "@ + triple_text(p.lattice_vectors@[0]) + "\n"@ + "    "@ + triple_text(
        p.lattice_vectors@[1],
    ) + "\n"@ + "    "@ + triple_text(p.lattice_vectors@[2]) + "\n"@
}

/// The species line, if any, and the counts line.
pub open spec fn species_text(p: Poscar) -> Seq<char> {
    let symbols = match p.group_symbols {
        Some(s) => "  "@ + join_padded(symbols_view(s@)) + "\n"@,
        None => seq![],
    };
    symbols + "  "@ + join_padded(counts_view(p.group_counts@)) + "\n"@
}

/// The flag line, if any, and the coordinate system line.
pub open spec fn header_text(p: Poscar) -> Seq<char> {
    let sd = if p.dynamics is Some {
        "Selective Dynamics\n"@
    } else {
        seq![]
    };
    let header = if p.positions is Cart {
        "Cartesian\n"@
    } else {
        "Direct\n"@
    };
    sd + header
}

/// The position lines.
pub open spec fn positions_text(p: Poscar) -> Seq<char> {
    let dyn_ = match p.dynamics {
        Some(d) => Some(d@),
        None => None,
    };
    rows_text(p.positions.rows(), dyn_)
}

/// The velocity block, if any: a header (empty for direct velocities), and
/// the data lines.
pub open spec fn velocities_text(p: Poscar) -> Seq<char> {
    match p.velocities {
        Some(v) => (if v is Cart {
            "Cartesian\n"@
        } else {
            "\n"@
        }) + rows_text(v.rows(), None),
        None => seq![],
    }
}

/// The text of a document.
pub open spec fn poscar_text(p: Poscar) -> Seq<char> {
    head_text(p) + lattice_text(p) + species_text(p) + header_text(p) + positions_text(p)
        + velocities_text(p)
}

fn push_str(out: &mut Vec<char>, s: &str)
    ensures
        final(out)@ == old(out)@ + s@,
{
    let cs = chars_of(s);
    append_chars(out, cs.as_slice());
}

fn push_padded(out: &mut Vec<char>, s: &[char])
    ensures
        final(out)@ == old(out)@ + pad2(s@),
{
    if s.len() == 0 {
        push_str(out, "  ");
    } else if s.len() == 1 {
        out.push(' ');
        append_chars(out, s);
        proof {
            assert(final(out)@ =~= old(out)@ + (seq![' '] + s@));
        }
    } else {
        append_chars(out, s);
    }
}

fn push_triple(out: &mut Vec<char>, t: &Triple)
    ensures
        final(out)@ == old(out)@ + triple_text(*t),
{
    let a = chars_of(t[0].as_str());
    let b = chars_of(t[1].as_str());
    let c = chars_of(t[2].as_str());
    append_chars(out, a.as_slice());
    push_str(out, " ");
    append_chars(out, b.as_slice());
    push_str(out, " ");
    append_chars(out, c.as_slice());
    proof {
        assert(final(out)@ =~= old(out)@ + triple_text(*t));
    }
}

fn push_rows(out: &mut Vec<char>, rows: &Vec<Triple>, dyn_: Option<&Vec<[bool; 3]>>)
    requires
        dyn_ matches Some(d) ==> d@.len() == rows@.len(),
    ensures
        final(out)@ == old(out)@ + rows_text(
            rows@,
            match dyn_ {
                Some(d) => Some(d@),
                None => None,
            },
        ),
{
    let ghost dv = match dyn_ {
        Some(d) => Some(d@),
        None => None,
    };
    let mut k: usize = 0;
    proof {
        assert(rows@.subrange(0, 0) =~= Seq::<Triple>::empty());
        assert(out@ =~= old(out)@ + rows_text(rows@.subrange(0, 0), dv));
    }
    while k < rows.len()
        invariant
            k <= rows@.len(),
            dyn_ matches Some(d) ==> d@.len() == rows@.len(),
            dv == match dyn_ {
                Some(d) => Some(d@),
                None => None,
            },
            out@ == old(out)@ + rows_text(rows@.subrange(0, k as int), dv),
        decreases rows@.len() - k,
    {
        let ghost before = out@;
        push_str(out, "  ");
        push_triple(out, &rows[k]);
        match dyn_ {
            Some(d) => {
                let f = d[k];
                push_str(out, " ");
                out.push(if f[0] { 'T' } else { 'F' });
                out.push(' ');
                out.push(if f[1] { 'T' } else { 'F' });
                out.push(' ');
                out.push(if f[2] { 'T' } else { 'F' });
            },
            None => {},
        }
        push_str(out, "\n");
        proof {
            let s = rows@.subrange(0, k + 1);
            assert(s.drop_last() =~= rows@.subrange(0, k as int));
            let flags = match dv {
                Some(dd) => " "@ + flags_text(dd[k as int]),
                None => seq![],
            };
            assert(out@ =~= before + "  "@ + triple_text(rows@[k as int]) + flags + "\n"@);
        }
        k = k + 1;
    }
    proof {
        assert(rows@.subrange(0, rows@.len() as int) =~= rows@);
    }
}

fn push_symbols(out: &mut Vec<char>, v: &Vec<String>)
    ensures
        final(out)@ == old(out)@ + join_padded(symbols_view(v@)),
{
    let mut k: usize = 0;
    proof {
        assert(symbols_view(v@.subrange(0, 0)) =~= Seq::<Seq<char>>::empty());
        assert(out@ =~= old(out)@ + join_padded(symbols_view(v@.subrange(0, 0))));
    }
    while k < v.len()
        invariant
            k <= v@.len(),
            out@ == old(out)@ + join_padded(symbols_view(v@.subrange(0, k as int))),
        decreases v@.len() - k,
    {
        let ghost before = out@;
        if k > 0 {
            push_str(out, " ");
        }
        let cs = chars_of(v[k].as_str());
        push_padded(out, cs.as_slice());
        proof {
            let s = symbols_view(v@.subrange(0, k + 1));
            assert(s.drop_last() =~= symbols_view(v@.subrange(0, k as int)));
            assert(s.last() == v@[k as int]@);
            if k == 0 {
                assert(out@ =~= before + pad2(s[0]));
            } else {
                assert(out@ =~= before + " "@ + pad2(s.last()));
            }
        }
        k = k + 1;
    }
    proof {
        assert(v@.subrange(0, v@.len() as int) =~= v@);
    }
}

fn push_counts(out: &mut Vec<char>, v: &Vec<usize>)
    ensures
        final(out)@ == old(out)@ + join_padded(counts_view(v@)),
{
    let mut k: usize = 0;
    proof {
        assert(counts_view(v@.subrange(0, 0)) =~= Seq::<Seq<char>>::empty());
        assert(out@ =~= old(out)@ + join_padded(counts_view(v@.subrange(0, 0))));
    }
    while k < v.len()
        invariant
            k <= v@.len(),
            out@ == old(out)@ + join_padded(counts_view(v@.subrange(0, k as int))),
        decreases v@.len() - k,
    {
        let ghost before = out@;
        if k > 0 {
            push_str(out, " ");
        }
        let cs = decimal(v[k] as u128);
        push_padded(out, cs.as_slice());
        proof {
            let s = counts_view(v@.subrange(0, k + 1));
            assert(s.drop_last() =~= counts_view(v@.subrange(0, k as int)));
            assert(s.last() == dec(v@[k as int] as nat));
            if k == 0 {
                assert(out@ =~= before + pad2(s[0]));
            } else {
                assert(out@ =~= before + " "@ + pad2(s.last()));
            }
        }
        k = k + 1;
    }
    proof {
        assert(v@.subrange(0, v@.len() as int) =~= v@);
    }
}

fn push_head(out: &mut Vec<char>, p: &Poscar)
    ensures
        final(out)@ == old(out)@ + head_text(*p),
{
    push_str(out, p.comment.as_str());
    push_str(out, "\n");
    match &p.scale {
        ScaleLine::Factor(s) => {
            push_str(out, "  ");
            push_str(out, s.as_str());
        },
        ScaleLine::Volume(s) => {
            push_str(out, "  -");
            push_str(out, s.as_str());
        },
    }
    push_str(out, "\n");
    proof {
        assert(final(out)@ =~= old(out)@ + head_text(*p));
    }
}

fn push_lattice(out: &mut Vec<char>, p: &Poscar)
    ensures
        final(out)@ == old(out)@ + lattice_text(*p),
{
    push_str(out, "    ");
    push_triple(out, &p.lattice_vectors[0]);
    push_str(out, "\n");
    push_str(out, "    ");
    push_triple(out, &p.lattice_vectors[1]);
    push_str(out, "\n");
    push_str(out, "    ");
    push_triple(out, &p.lattice_vectors[2]);
    push_str(out, "\n");
    proof {
        assert(final(out)@ =~= old(out)@ + lattice_text(*p));
    }
}

fn push_species(out: &mut Vec<char>, p: &Poscar)
    ensures
        final(out)@ == old(out)@ + species_text(*p),
{
    match &p.group_symbols {
        Some(s) => {
            push_str(out, "  ");
            push_symbols(out, s);
            push_str(out, "\n");
        },
        None => {},
    }
    push_str(out, "  ");
    push_counts(out, &p.group_counts);
    push_str(out, "\n");
    proof {
        assert(final(out)@ =~= old(out)@ + species_text(*p));
    }
}

fn push_header(out: &mut Vec<char>, p: &Poscar)
    ensures
        final(out)@ == old(out)@ + header_text(*p),
{
    if p.dynamics.is_some() {
        push_str(out, "Selective Dynamics\n");
    }
    match &p.positions {
        Coords::Cart(_) => push_str(out, "Cartesian\n"),
        Coords::Frac(_) => push_str(out, "Direct\n"),
    }
    proof {
        assert(final(out)@ =~= old(out)@ + header_text(*p));
    }
}

fn push_velocities(out: &mut Vec<char>, p: &Poscar)
    requires
        p.wf(),
    ensures
        final(out)@ == old(out)@ + velocities_text(*p),
{
    match &p.velocities {
        Some(v) => {
            match v {
                Coords::Cart(_) => push_str(out, "Cartesian\n"),
                Coords::Frac(_) => push_str(out, "\n"),
            }
            push_rows(out, v.raw(), None);
        },
        None => {},
    }
    proof {
        assert(final(out)@ =~= old(out)@ + velocities_text(*p));
    }
}

impl Poscar {
    /// The document as text, with the reals as they are written in it.
    pub fn to_text(&self) -> (r: String)
        requires
            self.wf(),
        ensures
            r@ == poscar_text(*self),
    {
        let mut out: Vec<char> = Vec::new();
        push_head(&mut out, self);
        push_lattice(&mut out, self);
        push_species(&mut out, self);
        push_header(&mut out, self);
        push_rows(&mut out, self.positions.raw(), self.dynamics.as_ref());
        push_velocities(&mut out, self);
        proof {
            assert(out@ =~= poscar_text(*self));
        }
        string_of(out.as_slice())
    }
}

} // verus!
