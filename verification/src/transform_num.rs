//! Numeric expressions of transforms, which the grammar's parser evaluates.
use vstd::prelude::*;

use crate::matching::MPMatching;
use crate::parser::{FactParser, MPParser};
use crate::segment::MPSegment;

verus! {

/// The evaluator of numeric expressions, through the grammar's parser.
pub struct TNParser {}

impl TNParser {
    /// An evaluator.
    pub fn new() -> (r: TNParser) {
        TNParser {}
    }

    /// The value of a numeric expression under `matching`, as the grammar's parser renders
    /// it, interned as a decimal leaf; `None` where the parser does not evaluate it.
    pub fn compile<G: FactParser>(&self, parser: &mut MPParser<G>, source: &str, matching: &MPMatching<'static>) -> (r: Option<&'static MPSegment>)
        requires
            old(parser).wf(),
        ensures
            final(parser).wf(),
            final(parser).grammar == old(parser).grammar,
            final(parser).flexicon == old(parser).flexicon,
            r matches Some(s) ==> s@.name == "v_decimal"@ && s@.is_leaf,
    {
        match parser.grammar.eval_num(source, matching) {
            Some(num) => Some(parser.lexicon.intern("v_decimal", num.as_str(), true)),
            None => None,
        }
    }
}

} // verus!
