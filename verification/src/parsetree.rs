//! Parse trees, as the grammar's parser hands them over.
use vstd::prelude::*;

verus! {

/// A node of a parse tree: the name of the production it matched, the text it matched, and
/// the nodes of its inner productions.
#[derive(Debug)]
pub struct ParseNode {
    pub name: String,
    pub text: String,
    pub children: Vec<ParseNode>,
}

/// The number of nodes of a tree.
pub open spec fn tree_size(t: ParseNode) -> nat
    decreases t,
{
    1 + forest_size(t.children@)
}

/// The number of nodes of a list of trees.
pub open spec fn forest_size(cs: Seq<ParseNode>) -> nat
    decreases cs,
{
    if cs.len() == 0 {
        0
    } else {
        tree_size(cs[0]) + forest_size(cs.subrange(1, cs.len() as int))
    }
}

} // verus!
