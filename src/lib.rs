//! Reading and writing crystal structure files in the POSCAR format.
//!
//! - `text`: characters, lines and whitespace.
//! - `span`: lines and words that keep their line and column.
//! - `literal`: boolean literals, counts, real literals, symbols, and the
//!   class of a coordinate-system line.
//! - `error`: the parse error and its message.
//! - `poscar`: the document and its invariants.
//! - `parse`: the parser, with the velocity-block decision.
//! - `write`: the writer.
//! - `laws`: a written document reads back as itself.
use vstd::prelude::*;

pub mod text;
pub mod error;
pub mod span;
pub mod literal;
pub mod poscar;
pub mod parse;
pub mod write;
pub mod laws;

pub use error::{Kind, ParseError, Reason, UnsignedError};
pub use literal::CoordLineType;
pub use poscar::{Coords, Poscar, ScaleLine, Triple};
pub use span::{Lines, Spanned};

verus! {

} // verus!
