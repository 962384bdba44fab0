//! Line reshuffling: parse a line with an input template, re-render its
//! captured fields through an output template.

use vstd::prelude::*;

use crate::matcher::{match_spec, MatchResult};
use crate::pattern::Pattern;
use crate::render::{pairs_view, render, render_spec};

verus! {

/// Substitutes every captured, named value into `template`, in insertion
/// order, leaving unmatched placeholders verbatim.
pub fn format_output(template: &[u8], result: &MatchResult) -> (r: Vec<u8>)
    ensures
        r@ == render_spec(template@, result@, Seq::empty()),
{
    let extra: Vec<(Vec<u8>, Vec<u8>)> = Vec::new();
    let out = render(template, result, &extra);
    proof {
        assert(pairs_view(extra@) =~= Seq::<(Seq<u8>, Seq<u8>)>::empty());
    }
    out
}

/// One line of the reshuffle pipeline: match, then re-render; `None`
/// exactly when the line does not satisfy the input template.
pub fn shuffle_line(pattern: &Pattern, out_spec: &[u8], line: &[u8]) -> (r: Option<Vec<u8>>)
    ensures
        (match (r, match_spec(pattern@, line@)) {
            (Some(o), Some(en)) => o@ == render_spec(out_spec@, en, Seq::empty()),
            (None, None) => true,
            _ => false,
        }),
{
    match pattern.match_line(line) {
        Some(result) => Some(format_output(out_spec, &result)),
        None => None,
    }
}

} // verus!
