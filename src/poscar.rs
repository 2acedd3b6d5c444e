//! The document: a crystal's cell, species, counts, positions and velocities.
//!
//! Real numbers are held as the literal text they were read from; every such
//! text is a literal that a 64-bit float can be read from.
use vstd::prelude::*;
use crate::literal::{
    classify_scale, is_real, is_real_literal, is_symbol, is_valid_symbol_for_symbol_line,
    scale_sign, ScaleSign,
};
use crate::text::chars_of;

verus! {

/// Three real numbers, as literal text.
pub type Triple = [String; 3];

/// The scale line: a factor for the lattice vectors, or the volume that the
/// cell is scaled to.
#[derive(Debug, Clone, PartialEq, Eq)]
pub enum ScaleLine {
    /// A positive factor.
    Factor(String),
    /// A positive volume; the file writes it with a minus sign.
    Volume(String),
}

/// Coordinates, Cartesian or fractional.
#[derive(Debug, Clone, PartialEq, Eq)]
pub enum Coords {
    Cart(Vec<Triple>),
    Frac(Vec<Triple>),
}

/// A parsed structure file.
#[derive(Debug, Clone, PartialEq, Eq)]
pub struct Poscar {
    pub comment: String,
    pub scale: ScaleLine,
    pub lattice_vectors: [Triple; 3],
    pub group_symbols: Option<Vec<String>>,
    pub group_counts: Vec<usize>,
    pub positions: Coords,
    pub dynamics: Option<Vec<[bool; 3]>>,
    pub velocities: Option<Coords>,
}

/// True of a text of one line: it holds no line feed.
pub open spec fn no_line_feed(s: Seq<char>) -> bool {
    forall|i: int| 0 <= i < s.len() ==> #[trigger] s[i] != '\n'
}

/// True when a text holds no line feed.
pub fn is_one_line(s: &str) -> (r: bool)
    ensures
        r == no_line_feed(s@),
{
    let cs = chars_of(s);
    let mut i: usize = 0;
    while i < cs.len()
        invariant
            cs@ == s@,
            i <= cs@.len(),
            forall|j: int| 0 <= j < i ==> #[trigger] cs@[j] != '\n',
        decreases cs@.len() - i,
    {
        if cs[i] == '\n' {
            return false;
        }
        i = i + 1;
    }
    true
}

/// True when the three texts are real literals.
pub open spec fn is_real3(t: Triple) -> bool {
    &&& is_real(t@[0]@)
    &&& is_real(t@[1]@)
    &&& is_real(t@[2]@)
}

/// True when every triple holds real literals.
pub open spec fn all_real3(v: Seq<Triple>) -> bool {
    forall|i: int| 0 <= i < v.len() ==> is_real3(#[trigger] v[i])
}

/// The sum of a sequence of counts.
pub open spec fn sum(s: Seq<usize>) -> nat
    decreases s.len(),
{
    if s.len() == 0 {
        0
    } else {
        sum(s.drop_last()) + s.last() as nat
    }
}

impl Coords {
    /// The coordinates, whatever their system.
    pub open spec fn rows(&self) -> Seq<Triple> {
        match self {
            Coords::Cart(v) => v@,
            Coords::Frac(v) => v@,
        }
    }

    pub open spec fn is_cart(&self) -> bool {
        self is Cart
    }

    /// The coordinates, whatever their system.
    pub fn raw(&self) -> (r: &Vec<Triple>)
        ensures
            r@ == self.rows(),
    {
        match self {
            Coords::Cart(v) => v,
            Coords::Frac(v) => v,
        }
    }
}

impl ScaleLine {
    /// True when the text is a positive real literal (for a volume, once
    /// the minus sign is put back).
    pub open spec fn wf(&self) -> bool {
        match self {
            ScaleLine::Factor(s) => scale_sign(s@) == ScaleSign::Positive,
            ScaleLine::Volume(s) => scale_sign(seq!['-'] + s@) == ScaleSign::Negative,
        }
    }
}

impl Poscar {
    /// The number of atoms.
    pub open spec fn n(&self) -> nat {
        sum(self.group_counts@)
    }

    /// The invariants of a document: a comment of one line, one symbol for
    /// each count, at least one
    /// atom, one position (and flags, and velocity) for each atom, and real
    /// literals wherever a real number stands.
    pub open spec fn wf(&self) -> bool {
        &&& no_line_feed(self.comment@)
        &&& self.scale.wf()
        &&& all_real3(self.lattice_vectors@)
        &&& (self.group_symbols matches Some(s) ==> {
            &&& s@.len() == self.group_counts@.len()
            &&& forall|i: int| 0 <= i < s@.len() ==> is_symbol(#[trigger] s@[i]@)
        })
        &&& self.group_counts@.len() > 0
        &&& self.n() >= 1
        &&& self.positions.rows().len() == self.n()
        &&& all_real3(self.positions.rows())
        &&& (self.dynamics matches Some(d) ==> d@.len() == self.n())
        &&& (self.velocities matches Some(v) ==> {
            &&& v.rows().len() == self.n()
            &&& all_real3(v.rows())
        })
    }
}

/// True when the three texts are real literals.
pub fn triple_is_real(t: &Triple) -> (r: bool)
    ensures
        r == is_real3(*t),
{
    let a = chars_of(t[0].as_str());
    let b = chars_of(t[1].as_str());
    let c = chars_of(t[2].as_str());
    is_real_literal(a.as_slice()) && is_real_literal(b.as_slice()) && is_real_literal(c.as_slice())
}

/// True when every triple holds real literals.
pub fn rows_are_real(v: &Vec<Triple>) -> (r: bool)
    ensures
        r == all_real3(v@),
{
    let mut k: usize = 0;
    while k < v.len()
        invariant
            k <= v@.len(),
            forall|i: int| 0 <= i < k ==> is_real3(#[trigger] v@[i]),
        decreases v@.len() - k,
    {
        if !triple_is_real(&v[k]) {
            return false;
        }
        k = k + 1;
    }
    true
}

impl ScaleLine {
    /// Checks that the scale is a positive real literal.
    pub fn is_valid(&self) -> (r: bool)
        ensures
            r == self.wf(),
    {
        match self {
            ScaleLine::Factor(s) => {
                let cs = chars_of(s.as_str());
                classify_scale(cs.as_slice()) == ScaleSign::Positive
            },
            ScaleLine::Volume(s) => {
                let mut cs: Vec<char> = Vec::new();
                cs.push('-');
                let rest = chars_of(s.as_str());
                crate::text::append_chars(&mut cs, rest.as_slice());
                classify_scale(cs.as_slice()) == ScaleSign::Negative
            },
        }
    }
}

impl Poscar {
    /// Checks the invariants of a document.
    #[verifier::loop_isolation(false)]
    pub fn is_valid(&self) -> (r: bool)
        ensures
            r == self.wf(),
    {
        if !is_one_line(self.comment.as_str()) {
            return false;
        }
        if !self.scale.is_valid() {
            return false;
        }
        if !(triple_is_real(&self.lattice_vectors[0]) && triple_is_real(&self.lattice_vectors[1])
            && triple_is_real(&self.lattice_vectors[2])) {
            proof {
                assert(!all_real3(self.lattice_vectors@));
            }
            return false;
        }
        proof {
            assert(all_real3(self.lattice_vectors@)) by {
                assert forall|i: int| 0 <= i < 3 implies is_real3(
                    #[trigger] self.lattice_vectors@[i],
                ) by {
                    assert(i == 0 || i == 1 || i == 2);
                }
            }
        }
        match &self.group_symbols {
            Some(s) => {
                if s.len() != self.group_counts.len() {
                    return false;
                }
                let mut k: usize = 0;
                while k < s.len()
                    invariant
                        k <= s@.len(),
                        forall|i: int| 0 <= i < k ==> is_symbol(#[trigger] s@[i]@),
                    decreases s@.len() - k,
                {
                    let cs = chars_of(s[k].as_str());
                    if !is_valid_symbol_for_symbol_line(cs.as_slice()) {
                        proof {
                            assert(!is_symbol(s@[k as int]@));
                        }
                        return false;
                    }
                    k = k + 1;
                }
            },
            None => {},
        }
        if self.group_counts.len() == 0 {
            return false;
        }
        let mut n: usize = 0;
        let mut k: usize = 0;
        let rows = self.positions.raw();
        let rl = rows.len();
        while k < self.group_counts.len()
            invariant
                k <= self.group_counts@.len(),
                rl == rows@.len(),
                n as nat == sum(self.group_counts@.subrange(0, k as int)),
                rows@ == self.positions.rows(),
            decreases self.group_counts@.len() - k,
        {
            let c = self.group_counts[k];
            proof {
                let s = self.group_counts@.subrange(0, k + 1);
                assert(s.drop_last() =~= self.group_counts@.subrange(0, k as int));
            }
            if c > usize::MAX - n {
                proof {
                    lemma_sum_prefix(self.group_counts@, k + 1);
                    assert(self.positions.rows().len() != self.n());
                }
                return false;
            }
            n = n + c;
            k = k + 1;
        }
        proof {
            assert(self.group_counts@.subrange(0, k as int) =~= self.group_counts@);
        }
        if n == 0 || rows.len() != n || !rows_are_real(rows) {
            return false;
        }
        match &self.dynamics {
            Some(d) => {
                if d.len() != n {
                    return false;
                }
            },
            None => {},
        }
        match &self.velocities {
            Some(v) => {
                let vr = v.raw();
                if vr.len() != n || !rows_are_real(vr) {
                    return false;
                }
            },
            None => {},
        }
        true
    }
}

proof fn lemma_sum_prefix(s: Seq<usize>, k: int)
    requires
        0 <= k <= s.len(),
    ensures
        sum(s.subrange(0, k)) <= sum(s),
    decreases s.len() - k,
{
    if k < s.len() {
        lemma_sum_prefix(s, k + 1);
        assert(s.subrange(0, k + 1).drop_last() =~= s.subrange(0, k));
    } else {
        assert(s.subrange(0, k) =~= s);
    }
}

} // verus!
