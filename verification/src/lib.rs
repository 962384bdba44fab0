//! A small engine for describing the shape of a single line of text:
//! a brace-delimited template is compiled into a pattern, the pattern
//! extracts named, typed values from an input line, and the values are
//! substituted back into an output template.

use vstd::prelude::*;

pub mod b64;
pub mod bytes;
pub mod jsonify;
pub mod laws;
pub mod limit;
pub mod matcher;
pub mod pattern;
pub mod regexgen;
pub mod render;
pub mod shuffle;
pub mod timestamp;
pub mod value;

pub use matcher::MatchResult;
pub use pattern::{compile, FieldSpec, GrammarError, Pattern, Segment};
pub use render::{render, replace_all};
pub use value::{Hint, ValModel, Value};
