//! An arena-based DOM construction back end for an HTML parser.
//!
//! An external tokenizer / tree-building algorithm decides *what* to insert
//! and drives this library through a stream of structural commands; the
//! library owns the document tree, hands out stable handles, and applies
//! each mutation with the exact node-identity and text-merging semantics
//! the HTML parsing algorithm requires.

use vstd::prelude::*;

pub mod model;
pub mod seqs;
pub mod sink;
pub mod laws;

verus! {

pub use crate::model::Handle;
pub use crate::model::QualName;
pub use crate::model::HtmlAttribute;
pub use crate::model::Attr;
pub use crate::model::Tag;
pub use crate::model::NodeKind;
pub use crate::model::Doctype;
pub use crate::model::QuirksMode;
pub use crate::model::SinkError;
pub use crate::model::NodeOrText;
pub use crate::model::NextParserState;
pub use crate::sink::HtmlParser;
pub use crate::sink::HtmlAst;

} // verus!
