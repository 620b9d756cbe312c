//! Layout logic of a PlantUML-to-SVG engine: the text handling, graph
//! ranking and classification rules that decide how diagrams are laid out.
pub mod layout;
pub mod model;
pub mod name_table;
pub mod text;

use vstd::prelude::*;

verus! {

/// The hidden line break that the preprocessor leaves inside display text.
pub const NEWLINE_CHAR: char = '\u{E100}';

} // verus!
