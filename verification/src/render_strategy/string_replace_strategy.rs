//! The renderer as a strategy of its own name: it cuts the template into
//! spans and renders them over the store.

use crate::render_strategy::interpreter::{scan, spans_of};
use crate::render_strategy::string_replace::{render, rendered};
use crate::template::Context;
use vstd::prelude::*;

verus! {

/// The output for the template over the store `context`: literal text and
/// statements as they are written, and each expression as the text to which
/// its dotted name leads through the nested stores. An expression whose
/// name leads to no text stays as it is written.
pub fn string_replace_strategy(template: String, context: Context) -> (output: String)
    ensures
        output@ == rendered(spans_of(template@), context@),
{
    let spans = scan(template.as_str());
    render(&spans, &context)
}

} // verus!
