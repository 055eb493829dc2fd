//! CSON — Crush Semantic Object Notation: a parser, a printer and the JSON
//! projection of the format.
//!
//! - `model`: the node model and its mathematical view;
//! - `grammar`: what the parser reads, as functions of the input;
//! - `parser`: the recursive-descent parser, proved to read as `grammar` says;
//! - `print`: the printer and the text it writes;
//! - `project`: the JSON projection;
//! - `roundtrip`: reading back what the printer writes;
//! - `laws`: what holds of every document the parser returns;
//! - `reading`: what the reader makes of blanks, quoted strings, bare keys
//!   and confidences;
//! - `writing`: how the printer quotes text and which keys it writes bare;
//! - `number`, `text`, `scan`, `tokens`: literals, characters, scans and
//!   the lemmas on tokens that the others use.
use vstd::prelude::*;

pub mod model;
pub mod text;
pub mod number;
pub mod grammar;
pub mod scan;
pub mod parser;
pub mod print;
pub mod project;
pub mod tokens;
pub mod roundtrip;
pub mod laws;
pub mod reading;
pub mod writing;

pub use model::{CsonAnnotation, CsonDocument, CsonKey, CsonMap, CsonNode, CsonValue, PropertyMap};
pub use parser::CsonParser;
pub use print::{print_document, print_node};
pub use project::{JsonValue, ProjectError};

verus! {

} // verus!
